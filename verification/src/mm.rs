//! Memory management: SV39 addresses, page table entries, the leaf
//! mappings of a page table, and the checks and translation of user
//! pointers done on behalf of system calls.

use vstd::prelude::*;
use std::collections::HashMap;

verus! {

broadcast use vstd::std_specs::hash::group_hash_axioms;

/// Bytes in a page.
pub const PAGE_SIZE: usize = 0x1000;

/// Bits of the offset within a page.
pub const PAGE_SIZE_BITS: usize = 0xc;

/// Number of distinct SV39 virtual addresses: addresses keep their low 39 bits.
pub open spec fn sv39_span() -> int {
    0x80_0000_0000
}

/// Number of distinct physical page numbers: they keep their low 44 bits.
pub open spec fn ppn_span() -> int {
    0x1000_0000_0000
}

/// A virtual address.
#[derive(Clone, Copy, PartialEq, Eq, Structural, Debug)]
pub struct VirtAddr(pub usize);

/// A virtual page number.
#[derive(Clone, Copy, PartialEq, Eq, Structural, Debug)]
pub struct VirtPageNum(pub usize);

/// A physical address.
#[derive(Clone, Copy, PartialEq, Eq, Structural, Debug)]
pub struct PhysAddr(pub u64);

/// A physical page number.
#[derive(Clone, Copy, PartialEq, Eq, Structural, Debug)]
pub struct PhysPageNum(pub u64);

/// The SV39 virtual address of a machine word: its low 39 bits.
pub open spec fn va_of(v: usize) -> int {
    v as int % sv39_span()
}

/// The page holding address `a`.
pub open spec fn page_floor(a: int) -> int {
    a / PAGE_SIZE as int
}

/// The first page at or above address `a`.
pub open spec fn page_ceil(a: int) -> int {
    if a == 0 {
        0
    } else {
        (a - 1) / PAGE_SIZE as int + 1
    }
}

/// The page holding the virtual address of `v`.
pub open spec fn vpn_of(v: usize) -> int {
    page_floor(va_of(v))
}

impl VirtAddr {
    /// The virtual address of `v`: its low 39 bits.
    pub fn from_usize(v: usize) -> (va: VirtAddr)
        ensures
            va.0 == va_of(v),
    {
        let w: u64 = (v as u64) & 0x7f_ffff_ffffu64;
        proof {
            let x = v as u64;
            assert(x & 0x7f_ffff_ffffu64 == x % 0x80_0000_0000u64) by (bit_vector);
            assert(x & 0x7f_ffff_ffffu64 <= x) by (bit_vector);
        }
        VirtAddr(w as usize)
    }

    /// The page holding this address.
    pub fn floor(&self) -> (p: VirtPageNum)
        ensures
            p.0 == page_floor(self.0 as int),
    {
        VirtPageNum(self.0 / PAGE_SIZE)
    }

    /// The first page at or above this address.
    pub fn ceil(&self) -> (p: VirtPageNum)
        ensures
            p.0 == page_ceil(self.0 as int),
    {
        if self.0 == 0 {
            VirtPageNum(0)
        } else {
            VirtPageNum((self.0 - 1) / PAGE_SIZE + 1)
        }
    }

    /// The offset of this address within its page.
    pub fn page_offset(&self) -> (off: usize)
        ensures
            off == self.0 % PAGE_SIZE,
    {
        let v = self.0;
        assert(v & 0xfffusize == v % 0x1000usize) by (bit_vector);
        v & (PAGE_SIZE - 1)
    }
}

impl PhysAddr {
    /// The physical address where page `ppn` starts.
    pub fn from_ppn(ppn: PhysPageNum) -> (pa: PhysAddr)
        requires
            ppn.0 < ppn_span(),
        ensures
            pa.0 == ppn.0 * 0x1000,
    {
        let p = ppn.0;
        assert(p < 0x1000_0000_0000u64 ==> p << 12u64 == p * 0x1000) by (bit_vector);
        PhysAddr(p << 12u64)
    }
}

/// Page table entry flags.
#[derive(Clone, Copy, PartialEq, Eq, Structural, Debug)]
pub struct PTEFlags {
    pub bits: u8,
}

impl PTEFlags {
    /// Valid.
    pub const V: u8 = 0x01;
    /// Readable.
    pub const R: u8 = 0x02;
    /// Writable.
    pub const W: u8 = 0x04;
    /// Executable.
    pub const X: u8 = 0x08;
    /// Accessible in user mode.
    pub const U: u8 = 0x10;
    /// Global.
    pub const G: u8 = 0x20;
    /// Accessed.
    pub const A: u8 = 0x40;
    /// Dirty.
    pub const D: u8 = 0x80;

    /// Whether every bit of `other` is set here.
    pub fn contains(&self, other: PTEFlags) -> (r: bool)
        ensures
            r == (self.bits & other.bits == other.bits),
    {
        self.bits & other.bits == other.bits
    }
}

/// Bit `bit` of `flags` is set.
pub open spec fn has_flag(flags: u8, bit: u8) -> bool {
    flags & bit == bit
}

/// A page table entry: a physical page number above ten flag bits.
#[derive(Clone, Copy, PartialEq, Eq, Structural, Debug)]
pub struct PageTableEntry {
    pub bits: u64,
}

/// The physical page number in entry bits `bits`.
pub open spec fn pte_ppn(bits: u64) -> int {
    (bits as int / 0x400) % ppn_span()
}

/// The flags in entry bits `bits`: the low byte.
pub open spec fn pte_flags(bits: u64) -> u8 {
    (bits as int % 0x100) as u8
}

impl PageTableEntry {
    /// The entry mapping page `ppn` with `flags`.
    pub fn new(ppn: PhysPageNum, flags: PTEFlags) -> (e: PageTableEntry)
        requires
            ppn.0 < ppn_span(),
        ensures
            pte_ppn(e.bits) == ppn.0,
            pte_flags(e.bits) == flags.bits,
    {
        let p = ppn.0;
        let f = flags.bits as u64;
        let b = (p << 10u64) | f;
        assert(p < 0x1000_0000_0000u64 && f < 0x100u64 ==> ((p << 10u64) | f) / 0x400u64 % 0x1000_0000_0000u64
            == p && ((p << 10u64) | f) % 0x100u64 == f) by (bit_vector);
        PageTableEntry { bits: b }
    }

    /// The entry mapping nothing.
    pub fn empty() -> (e: PageTableEntry)
        ensures
            e.bits == 0,
    {
        PageTableEntry { bits: 0 }
    }

    /// The physical page number of this entry.
    pub fn ppn(&self) -> (p: PhysPageNum)
        ensures
            p.0 == pte_ppn(self.bits),
    {
        let b = self.bits;
        assert(b >> 10u64 & 0xfff_ffff_ffffu64 == b / 0x400u64 % 0x1000_0000_0000u64) by (bit_vector);
        PhysPageNum(b >> 10u64 & 0xfff_ffff_ffffu64)
    }

    /// The flags of this entry.
    pub fn flags(&self) -> (f: PTEFlags)
        ensures
            f.bits == pte_flags(self.bits),
    {
        let b = self.bits;
        assert(b as u8 == (b % 0x100u64) as u8) by (bit_vector);
        PTEFlags { bits: b as u8 }
    }

    /// Whether the valid bit is set.
    pub fn is_valid(&self) -> (r: bool)
        ensures
            r == has_flag(pte_flags(self.bits), PTEFlags::V),
    {
        self.flags().contains(PTEFlags { bits: PTEFlags::V })
    }
}

/// The leaf entries of a page table, by virtual page number.
pub struct PageTable {
    pub entries: HashMap<usize, PageTableEntry>,
}

impl View for PageTable {
    type V = Map<usize, PageTableEntry>;

    open spec fn view(&self) -> Map<usize, PageTableEntry> {
        self.entries@
    }
}

impl PageTable {
    /// A page table with no entry.
    pub fn new() -> (pt: PageTable)
        ensures
            pt@ == Map::<usize, PageTableEntry>::empty(),
    {
        PageTable { entries: HashMap::new() }
    }

    /// Maps page `vpn` to frame `ppn` with `flags` and the valid bit.
    pub fn map(&mut self, vpn: VirtPageNum, ppn: PhysPageNum, flags: PTEFlags)
        requires
            ppn.0 < ppn_span(),
            old(self)@.contains_key(vpn.0) ==> !has_flag(
                pte_flags(old(self)@[vpn.0].bits),
                PTEFlags::V,
            ),
        ensures
            final(self)@.dom() == old(self)@.dom().insert(vpn.0),
            forall|k: usize| k != vpn.0 && old(self)@.contains_key(k) ==> final(self)@[k] == old(self)@[k],
            pte_ppn(final(self)@[vpn.0].bits) == ppn.0,
            pte_flags(final(self)@[vpn.0].bits) == flags.bits | PTEFlags::V,
    {
        let e = PageTableEntry::new(ppn, PTEFlags { bits: flags.bits | PTEFlags::V });
        self.entries.insert(vpn.0, e);
    }

    /// Clears the entry of page `vpn`, which must be valid.
    pub fn unmap(&mut self, vpn: VirtPageNum)
        requires
            old(self)@.contains_key(vpn.0),
            has_flag(pte_flags(old(self)@[vpn.0].bits), PTEFlags::V),
        ensures
            final(self)@ == old(self)@.insert(vpn.0, PageTableEntry { bits: 0 }),
    {
        self.entries.insert(vpn.0, PageTableEntry::empty());
    }

    /// The entry of page `vpn`, if the table has one.
    pub fn translate(&self, vpn: VirtPageNum) -> (r: Option<PageTableEntry>)
        ensures
            r == (if self@.contains_key(vpn.0) {
                Some(self@[vpn.0])
            } else {
                None
            }),
    {
        match self.entries.get(&vpn.0) {
            Some(e) => Some(*e),
            None => None,
        }
    }
}

/// The page of `va` has an entry whose flags hold all bits of `bits`.
pub open spec fn user_access(pt: Map<usize, PageTableEntry>, va: usize, bits: u8) -> bool {
    let vpn = vpn_of(va) as usize;
    pt.contains_key(vpn) && has_flag(pte_flags(pt[vpn].bits), bits)
}

/// Whether user mode may write at `va`: its page has an entry with the
/// user and the writable bits set.
pub fn is_user_writable(page_table: &PageTable, va: usize) -> (r: bool)
    ensures
        r == user_access(page_table@, va, PTEFlags::U | PTEFlags::W),
        r == (user_access(page_table@, va, PTEFlags::U) && user_access(page_table@, va, PTEFlags::W)),
{
    let vpn = VirtAddr::from_usize(va).floor();
    let r = match page_table.translate(vpn) {
        Some(pte) => pte.flags().contains(PTEFlags { bits: PTEFlags::U | PTEFlags::W }),
        None => false,
    };
    proof {
        let vp = vpn_of(va) as usize;
        assert(0x10u8 | 0x04u8 == 0x14u8) by (bit_vector);
        if page_table@.contains_key(vp) {
            let f = pte_flags(page_table@[vp].bits);
            assert(f & 0x14u8 == 0x14u8 <==> (f & 0x10u8 == 0x10u8 && f & 0x04u8 == 0x04u8)) by (bit_vector);
        }
    }
    r
}

/// Whether user mode may read at `va`: its page has an entry with the
/// user and the readable bits set.
pub fn is_user_readable(page_table: &PageTable, va: usize) -> (r: bool)
    ensures
        r == user_access(page_table@, va, PTEFlags::U | PTEFlags::R),
        r == (user_access(page_table@, va, PTEFlags::U) && user_access(page_table@, va, PTEFlags::R)),
{
    let vpn = VirtAddr::from_usize(va).floor();
    let r = match page_table.translate(vpn) {
        Some(pte) => pte.flags().contains(PTEFlags { bits: PTEFlags::U | PTEFlags::R }),
        None => false,
    };
    proof {
        let vp = vpn_of(va) as usize;
        assert(0x10u8 | 0x02u8 == 0x12u8) by (bit_vector);
        if page_table@.contains_key(vp) {
            let f = pte_flags(page_table@[vp].bits);
            assert(f & 0x12u8 == 0x12u8 <==> (f & 0x10u8 == 0x10u8 && f & 0x02u8 == 0x02u8)) by (bit_vector);
        }
    }
    r
}

/// The physical address behind user virtual address `va`: the start of
/// the frame that the page of `va` maps, plus the offset of `va` in its page.
pub open spec fn phys_of(pt: Map<usize, PageTableEntry>, va: usize) -> int {
    pte_ppn(pt[vpn_of(va) as usize].bits) * PAGE_SIZE as int + va as int % PAGE_SIZE as int
}

/// Translates user virtual address `va` through `page_table`; the page of
/// `va` must have an entry.
pub fn translate_ptr(page_table: &PageTable, va: usize) -> (pa: u64)
    requires
        page_table@.contains_key(vpn_of(va) as usize),
    ensures
        pa == phys_of(page_table@, va),
        pa as int % PAGE_SIZE as int == va as int % PAGE_SIZE as int,
{
    let start_va = VirtAddr::from_usize(va);
    let vpn = start_va.floor();
    let pte = page_table.translate(vpn).unwrap();
    let ppn = pte.ppn();
    let base = PhysAddr::from_ppn(ppn);
    let offset = start_va.page_offset();
    proof {
        assert(va_of(va) % 4096 == va as int % 4096) by {
            vstd::arithmetic::div_mod::lemma_mod_mod(va as int, 4096, 0x8000000);
        }
    }
    base.0 + offset as u64
}

} // verus!
