//! Sv39 page-table entry encoding.
//!
//! A PTE is a 64-bit word laid out as `PPN[53:10] | flags[9:0]` with flag
//! bits V, R, W, X, U, G, A, D in the low byte. An entry is *valid* iff V is
//! set and the word exceeds `0xff` (guarding against flag-only entries); a
//! valid entry with any of R/W/X set maps a (possibly huge) page, while a
//! valid entry without them points at the next table level.

use vstd::prelude::*;

verus! {

/// Flag bit V: entry is valid.
pub const FLAG_V: u64 = 0x01;

/// Flag bit R: readable.
pub const FLAG_R: u64 = 0x02;

/// Flag bit W: writable.
pub const FLAG_W: u64 = 0x04;

/// Flag bit X: executable.
pub const FLAG_X: u64 = 0x08;

/// Flag bit U: accessible from user mode.
pub const FLAG_U: u64 = 0x10;

/// Flag bit G: global mapping.
pub const FLAG_G: u64 = 0x20;

/// Flag bit A: accessed.
pub const FLAG_A: u64 = 0x40;

/// Flag bit D: dirty.
pub const FLAG_D: u64 = 0x80;

/// V, R, W and X together.
pub const FLAG_VRWX: u64 = 0x0f;

/// The flag set of a kernel direct-map megapage: A, D, G, V, R, W, X.
pub const FLAG_ADGVRWX: u64 = 0xef;

/// All eight standard flag bits.
pub const FLAG_ALL: u64 = 0xff;

/// A set of Sv39 PTE flag bits (the low byte of an entry word).
#[derive(Copy, Clone, PartialEq, Eq, Structural, Debug)]
pub struct PTEFlags(pub u64);

impl PTEFlags {
    /// The raw flag bits.
    pub fn bits(&self) -> (r: u64)
        ensures
            r == self.0,
    {
        self.0
    }

    /// Whether every bit of `other` is present in `self`.
    pub fn contains(&self, other: PTEFlags) -> (r: bool)
        ensures
            r == (self.0 & other.0 == other.0),
    {
        self.0 & other.0 == other.0
    }

    /// The union of two flag sets.
    pub fn union(self, other: PTEFlags) -> (r: PTEFlags)
        ensures
            r.0 == self.0 | other.0,
    {
        PTEFlags(self.0 | other.0)
    }

    /// Keep only the standard flag bits of a raw word.
    pub fn from_bits_truncate(bits: u64) -> (r: PTEFlags)
        ensures
            r.0 == bits & FLAG_ALL,
    {
        PTEFlags(bits & FLAG_ALL)
    }
}

/// Permission flag R exposed to layers above the paging core.
pub const MAP_R: u64 = 0x01;

/// Permission flag W exposed to layers above the paging core.
pub const MAP_W: u64 = 0x02;

/// Permission flag X exposed to layers above the paging core.
pub const MAP_X: u64 = 0x04;

/// Permission flag U exposed to layers above the paging core.
pub const MAP_U: u64 = 0x08;

/// Permission flag A exposed to layers above the paging core.
pub const MAP_A: u64 = 0x10;

/// Permission flag D exposed to layers above the paging core.
pub const MAP_D: u64 = 0x20;

/// A permission set carried by higher layers: R, W, X, U, A, D, or the empty
/// `None` sentinel (bits all clear). The V bit is never exposed above the
/// core; it is added when translating into `PTEFlags`.
#[derive(Copy, Clone, PartialEq, Eq, Structural, Debug)]
pub struct MappingFlags(pub u64);

impl MappingFlags {
    /// Whether every bit of `other` is present in `self`.
    pub fn contains(&self, other: MappingFlags) -> (r: bool)
        ensures
            r == (self.0 & other.0 == other.0),
    {
        self.0 & other.0 == other.0
    }

    /// The union of two permission sets.
    pub fn union(self, other: MappingFlags) -> (r: MappingFlags)
        ensures
            r.0 == self.0 | other.0,
    {
        MappingFlags(self.0 | other.0)
    }
}

/// The PTE flag bits that a permission set translates to: zero for the
/// `None` sentinel, else V plus the corresponding R/W/X/U/A/D bits.
pub open spec fn spec_flags_of_mapping(m: u64) -> u64 {
    if m == 0 {
        0
    } else {
        let f = FLAG_V;
        let f = if m & MAP_R != 0 {
            f | FLAG_R
        } else {
            f
        };
        let f = if m & MAP_W != 0 {
            f | FLAG_W
        } else {
            f
        };
        let f = if m & MAP_X != 0 {
            f | FLAG_X
        } else {
            f
        };
        let f = if m & MAP_U != 0 {
            f | FLAG_U
        } else {
            f
        };
        let f = if m & MAP_A != 0 {
            f | FLAG_A
        } else {
            f
        };
        if m & MAP_D != 0 {
            f | FLAG_D
        } else {
            f
        }
    }
}

impl PTEFlags {
    /// Translate a permission set of the higher layers into PTE flag bits.
    pub fn from_mapping(flags: MappingFlags) -> (r: PTEFlags)
        ensures
            r.0 == spec_flags_of_mapping(flags.0),
    {
        if flags.0 == 0 {
            PTEFlags(0)
        } else {
            let mut res: u64 = FLAG_V;
            if flags.0 & MAP_R != 0 {
                res = res | FLAG_R;
            }
            if flags.0 & MAP_W != 0 {
                res = res | FLAG_W;
            }
            if flags.0 & MAP_X != 0 {
                res = res | FLAG_X;
            }
            if flags.0 & MAP_U != 0 {
                res = res | FLAG_U;
            }
            if flags.0 & MAP_A != 0 {
                res = res | FLAG_A;
            }
            if flags.0 & MAP_D != 0 {
                res = res | FLAG_D;
            }
            PTEFlags(res)
        }
    }
}

/// The flags actually written by `PTE::from_ppn`: A is forced when R or X is
/// requested, D is forced when W is requested.
pub open spec fn spec_effective_flags(f: u64) -> u64 {
    let f1 = if f & FLAG_R == FLAG_R || f & FLAG_X == FLAG_X {
        f | FLAG_A
    } else {
        f
    };
    if f1 & FLAG_W == FLAG_W {
        f1 | FLAG_D
    } else {
        f1
    }
}

/// The entry word built from a page number and flag bits.
pub open spec fn spec_pte_word(ppn: u64, f: u64) -> u64 {
    (ppn << 10) | spec_effective_flags(f)
}

/// A single Sv39 page-table entry.
#[derive(Copy, Clone, PartialEq, Eq, Structural, Debug)]
pub struct PTE(pub u64);

impl PTE {
    /// The low byte of the entry word: its standard flag bits.
    pub open spec fn spec_flag_bits(self) -> u64 {
        self.0 & FLAG_ALL
    }

    /// The PPN field of the entry word: bits 53..10.
    pub open spec fn spec_ppn(self) -> u64 {
        (self.0 >> 10) & 0x0fff_ffff_ffff
    }

    /// Valid: V is set and the word exceeds `0xff`.
    pub open spec fn spec_is_valid(self) -> bool {
        self.spec_flag_bits() & FLAG_V == FLAG_V && self.0 > 0xff
    }

    /// Maps a (possibly huge) page: V together with R, W or X.
    pub open spec fn spec_is_huge(self) -> bool {
        self.spec_flag_bits() & FLAG_V == FLAG_V && (self.spec_flag_bits() & FLAG_R == FLAG_R
            || self.spec_flag_bits() & FLAG_W == FLAG_W || self.spec_flag_bits() & FLAG_X
            == FLAG_X)
    }

    /// Points at the next table level: V without any of R, W, X.
    pub open spec fn spec_is_leaf(self) -> bool {
        self.spec_flag_bits() & FLAG_V == FLAG_V && !(self.spec_flag_bits() & FLAG_R == FLAG_R
            || self.spec_flag_bits() & FLAG_W == FLAG_W || self.spec_flag_bits() & FLAG_X
            == FLAG_X)
    }

    /// The all-zero (invalid) entry.
    pub fn new() -> (r: Self)
        ensures
            r.0 == 0,
    {
        Self(0)
    }

    /// Build an entry word from a page number and flags, applying the A/D
    /// auto-set rules: R or X forces A, W forces D.
    pub fn from_ppn(ppn: u64, flags: PTEFlags) -> (r: Self)
        ensures
            r.0 == spec_pte_word(ppn, flags.0),
    {
        let mut flags = flags;
        if flags.contains(PTEFlags(FLAG_R)) || flags.contains(PTEFlags(FLAG_X)) {
            flags = flags.union(PTEFlags(FLAG_A));
        }
        if flags.contains(PTEFlags(FLAG_W)) {
            flags = flags.union(PTEFlags(FLAG_D));
        }
        Self(ppn << 10 | flags.bits())
    }

    /// Build an entry for the page containing physical byte `addr`.
    pub fn from_addr(addr: u64, flags: PTEFlags) -> (r: Self)
        ensures
            r.0 == spec_pte_word(addr >> 12, flags.0),
    {
        Self::from_ppn(addr >> 12, flags)
    }

    /// The page number held in the entry.
    pub fn to_ppn(&self) -> (r: crate::addr::PhysPage)
        ensures
            r.0 == self.spec_ppn(),
    {
        crate::addr::PhysPage((self.0 >> 10) & 0x0fff_ffff_ffff)
    }

    /// Overwrite the entry with a page number and exactly the given flags
    /// (no A/D auto-set).
    pub fn set(&mut self, ppn: u64, flags: PTEFlags)
        ensures
            final(self).0 == (ppn << 10) | flags.0,
    {
        self.0 = (ppn << 10) | flags.bits();
    }

    /// The standard flag bits of the entry.
    pub fn flags(&self) -> (r: PTEFlags)
        ensures
            r.0 == self.spec_flag_bits(),
    {
        PTEFlags::from_bits_truncate(self.0)
    }

    /// Whether the entry is valid.
    pub fn is_valid(&self) -> (r: bool)
        ensures
            r == self.spec_is_valid(),
    {
        self.flags().contains(PTEFlags(FLAG_V)) && self.0 > 0xff
    }

    /// Whether the entry maps a (possibly huge) page: V with R, W or X.
    pub fn is_huge(&self) -> (r: bool)
        ensures
            r == self.spec_is_huge(),
    {
        self.flags().contains(PTEFlags(FLAG_V)) && (self.flags().contains(PTEFlags(FLAG_R))
            || self.flags().contains(PTEFlags(FLAG_W)) || self.flags().contains(
            PTEFlags(FLAG_X),
        ))
    }

    /// Whether the entry points at the next table level: V without R, W, X.
    pub fn is_leaf(&self) -> (r: bool)
        ensures
            r == self.spec_is_leaf(),
    {
        self.flags().contains(PTEFlags(FLAG_V)) && !(self.flags().contains(PTEFlags(FLAG_R))
            || self.flags().contains(PTEFlags(FLAG_W)) || self.flags().contains(
            PTEFlags(FLAG_X),
        ))
    }
}

/// PTE encoding round trip: building an entry from a page number inside the
/// 44-bit PPN field and flags drawn from {V, R, W, X, U, G} yields an entry
/// whose PPN field is the page number again, whose flags contain the
/// requested flags, and whose only additional flags are the auto-set A and D
/// bits.
pub proof fn lemma_pte_encode_round_trip(ppn: u64, f: u64)
    requires
        ppn < 0x1000_0000_0000,
        f & (FLAG_V | FLAG_R | FLAG_W | FLAG_X | FLAG_U | FLAG_G) == f,
    ensures
        PTE(spec_pte_word(ppn, f)).spec_ppn() == ppn,
        PTE(spec_pte_word(ppn, f)).spec_flag_bits() & f == f,
        PTE(spec_pte_word(ppn, f)).spec_flag_bits() & !(f | FLAG_A | FLAG_D) == 0,
{
    let e: u64 = spec_effective_flags(f);
    let w: u64 = spec_pte_word(ppn, f);
    assert(f & (FLAG_V | FLAG_R | FLAG_W | FLAG_X | FLAG_U | FLAG_G) == f ==> f & 0x3f == f)
        by (bit_vector);
    assert(f & 0x3f == f ==> e == spec_effective_flags(f) && e <= 0xff) by (bit_vector)
        requires
            e == spec_effective_flags(f),
    ;
    assert(ppn < 0x1000_0000_0000 && e <= 0xff && w == ((ppn << 10) | e) ==> ((w >> 10)
        & 0x0fff_ffff_ffff == ppn)) by (bit_vector);
    assert(f & 0x3f == f && e == spec_effective_flags(f) && w == ((ppn << 10) | e) ==> ((w & 0xff)
        & f == f && (w & 0xff) & !(f | 0x40u64 | 0x80u64) == 0)) by (bit_vector);
}

} // verus!
