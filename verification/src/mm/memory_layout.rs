//! Addresses and page numbers.
//!
//! A physical page number is a 44-bit integer and a virtual page number is
//! the address shifted right by twelve bits; its three 9-bit groups select
//! the entries on the path through an SV39 page table.

use vstd::prelude::*;
use crate::config::{PAGE_SIZE, PAGE_SIZE_BITS};

verus! {

/// One more than the largest physical page number (44 bits).
pub const PPN_LIMIT: u64 = 0x1000_0000_0000;

/// What division and remainder by the page size are in shifts and masks.
pub proof fn lemma_page_bits(a: u64)
    by (bit_vector)
    ensures
        a >> 12 == a / 4096,
        a & 0xfff == a % 4096,
        a & !0xfffu64 == (a / 4096) * 4096,
        (a >> 12) < 0x10_0000_0000_0000,
        a < 0x10_0000_0000_0000 ==> (a << 12) == a * 4096,
        a < 0x10_0000_0000_0000 ==> (a << 12) >> 12 == a,
{
}

/// The three table indexes of a page number, as arithmetic.
pub proof fn lemma_index_bits(v: u64)
    by (bit_vector)
    ensures
        (v >> 18) & 0x1ff == (v / 0x4_0000) % 512,
        (v >> 9) & 0x1ff == (v / 512) % 512,
        v & 0x1ff == v % 512,
        (v >> 18) & 0x1ff < 512,
        (v >> 9) & 0x1ff < 512,
        v & 0x1ff < 512,
{
}

/// The page number of an address: the address divided by the page size.
pub open spec fn page_of(addr: u64) -> u64 {
    addr / 4096
}

/// The offset of an address inside its page.
pub open spec fn offset_of(addr: u64) -> u64 {
    addr % 4096
}

/// The first address of a page. Meaningful for page numbers below 2^52.
pub open spec fn base_of(page: u64) -> int {
    page * 4096
}

/// The table index that a virtual page number selects at `level`
/// (2 is the root, 0 the leaf table).
pub open spec fn index_at(vpn: u64, level: int) -> int {
    if level == 2 {
        (vpn as int / 0x4_0000) % 512
    } else if level == 1 {
        (vpn as int / 512) % 512
    } else {
        vpn as int % 512
    }
}

/// Two page numbers that select the same entry at every level.
pub open spec fn same_path(a: u64, b: u64) -> bool {
    index_at(a, 2) == index_at(b, 2) && index_at(a, 1) == index_at(b, 1) && index_at(a, 0)
        == index_at(b, 0)
}

/// A page number of a canonical SV39 address: bits 26 and above are all
/// equal, and nothing is set above bit 51.
pub open spec fn canonical_vpn(vpn: u64) -> bool {
    vpn < 0x400_0000 || (0xF_FFFF_FC00_0000 <= vpn && vpn <= 0xF_FFFF_FFFF_FFFF)
}

/// Two canonical page numbers with the same three indexes are equal.
proof fn lemma_canonical_bits(a: u64, b: u64)
    by (bit_vector)
    requires
        a < 0x400_0000 || (0xF_FFFF_FC00_0000 <= a && a <= 0xF_FFFF_FFFF_FFFF),
        b < 0x400_0000 || (0xF_FFFF_FC00_0000 <= b && b <= 0xF_FFFF_FFFF_FFFF),
        (a >> 18) & 0x1ff == (b >> 18) & 0x1ff,
        (a >> 9) & 0x1ff == (b >> 9) & 0x1ff,
        a & 0x1ff == b & 0x1ff,
    ensures
        a == b,
{
}

/// Canonical page numbers are told apart by their table indexes.
pub proof fn lemma_canonical_paths(a: u64, b: u64)
    requires
        canonical_vpn(a),
        canonical_vpn(b),
        same_path(a, b),
    ensures
        a == b,
{
    lemma_index_bits(a);
    lemma_index_bits(b);
    lemma_canonical_bits(a, b);
}

/// Physical address to physical page number.
pub fn pa_to_ppn(pa: u64) -> (ppn: u64)
    ensures
        ppn == pa >> 12,
        ppn == page_of(pa),
{
    proof {
        lemma_page_bits(pa);
    }
    pa >> PAGE_SIZE_BITS
}

/// Physical page number to the first address of the page.
pub fn ppn_to_pa(ppn: u64) -> (pa: u64)
    requires
        ppn < 0x10_0000_0000_0000,
    ensures
        pa == ppn << 12,
        pa == base_of(ppn),
{
    proof {
        lemma_page_bits(ppn);
    }
    ppn << PAGE_SIZE_BITS
}

/// Virtual address to virtual page number.
pub fn va_to_vpn(va: u64) -> (vpn: u64)
    ensures
        vpn == va >> 12,
        vpn == page_of(va),
{
    proof {
        lemma_page_bits(va);
    }
    va >> PAGE_SIZE_BITS
}

/// Virtual page number to the first address of the page.
pub fn vpn_to_va(vpn: u64) -> (va: u64)
    requires
        vpn < 0x10_0000_0000_0000,
    ensures
        va == vpn << 12,
        va == base_of(vpn),
{
    proof {
        lemma_page_bits(vpn);
    }
    vpn << PAGE_SIZE_BITS
}

/// The offset of an address inside its page.
pub fn page_offset(addr: u64) -> (off: u64)
    ensures
        off == addr & 0xfff,
        off == offset_of(addr),
{
    proof {
        lemma_page_bits(addr);
    }
    addr & (PAGE_SIZE - 1)
}

/// The smallest page boundary at or above `addr`.
pub fn align_up(addr: u64) -> (r: u64)
    requires
        addr + 4095 <= u64::MAX,
    ensures
        r == (addr + 4095) / 4096 * 4096,
        r % 4096 == 0,
        addr <= r < addr + 4096,
{
    let a: u64 = addr + (PAGE_SIZE - 1);
    proof {
        lemma_page_bits(a);
    }
    a & !(PAGE_SIZE - 1)
}

/// The largest page boundary at or below `addr`.
pub fn align_down(addr: u64) -> (r: u64)
    ensures
        r == addr / 4096 * 4096,
        r % 4096 == 0,
        r <= addr < r + 4096,
{
    proof {
        lemma_page_bits(addr);
    }
    addr & !(PAGE_SIZE - 1)
}

/// A physical address.
#[derive(Copy, Clone, Debug, PartialEq, Eq, Structural, PartialOrd, Ord)]
pub struct PhysAddr(pub u64);

impl PhysAddr {
    /// Wraps the number.
    pub fn new(addr: u64) -> (r: Self)
        ensures
            r.0 == addr,
    {
        PhysAddr(addr)
    }

    /// The number itself.
    pub fn as_usize(&self) -> (r: u64)
        ensures
            r == self.0,
    {
        self.0
    }

    /// The number of the page that holds this address.
    pub fn page_number(&self) -> (r: PhysPageNum)
        ensures
            r.0 == page_of(self.0),
            r.0 == self.0 >> 12,
    {
        PhysPageNum(pa_to_ppn(self.0))
    }

    /// The offset of the address within its page.
    pub fn page_offset(&self) -> (r: u64)
        ensures
            r == offset_of(self.0),
            r == self.0 & 0xfff,
    {
        page_offset(self.0)
    }

    /// Whether the address is the first of its page.
    pub fn aligned(&self) -> (r: bool)
        ensures
            r == (self.0 % 4096 == 0),
    {
        self.page_offset() == 0
    }
}

/// A physical page number.
#[derive(Copy, Clone, Debug, PartialEq, Eq, Structural, PartialOrd, Ord)]
pub struct PhysPageNum(pub u64);

impl PhysPageNum {
    /// Wraps the number.
    pub fn new(ppn: u64) -> (r: Self)
        ensures
            r.0 == ppn,
    {
        PhysPageNum(ppn)
    }

    /// The number itself.
    pub fn as_usize(&self) -> (r: u64)
        ensures
            r == self.0,
    {
        self.0
    }

    /// A page number that a page-table entry can hold.
    pub open spec fn wf(&self) -> bool {
        self.0 < PPN_LIMIT
    }

    /// The first address of the page.
    pub fn addr(&self) -> (r: PhysAddr)
        requires
            self.0 < 0x10_0000_0000_0000,
        ensures
            r.0 == base_of(self.0),
            r.0 == self.0 << 12,
    {
        PhysAddr(ppn_to_pa(self.0))
    }

    /// The first address of the page, as a number.
    pub fn as_addr(&self) -> (r: u64)
        requires
            self.0 < 0x10_0000_0000_0000,
        ensures
            r == base_of(self.0),
            r == self.0 << 12,
    {
        ppn_to_pa(self.0)
    }
}

/// A virtual address.
#[derive(Copy, Clone, Debug, PartialEq, Eq, Structural, PartialOrd, Ord)]
pub struct VirtAddr(pub u64);

impl VirtAddr {
    /// Wraps the number.
    pub fn new(addr: u64) -> (r: Self)
        ensures
            r.0 == addr,
    {
        VirtAddr(addr)
    }

    /// The number itself.
    pub fn as_usize(&self) -> (r: u64)
        ensures
            r == self.0,
    {
        self.0
    }

    /// The number of the page that holds this address.
    pub fn page_number(&self) -> (r: VirtPageNum)
        ensures
            r.0 == page_of(self.0),
            r.0 == self.0 >> 12,
    {
        VirtPageNum(va_to_vpn(self.0))
    }

    /// The offset of the address within its page.
    pub fn page_offset(&self) -> (r: u64)
        ensures
            r == offset_of(self.0),
            r == self.0 & 0xfff,
    {
        page_offset(self.0)
    }

    /// Whether the address is the first of its page.
    pub fn aligned(&self) -> (r: bool)
        ensures
            r == (self.0 % 4096 == 0),
    {
        self.page_offset() == 0
    }
}

/// A virtual page number.
#[derive(Copy, Clone, Debug, PartialEq, Eq, Structural, PartialOrd, Ord)]
pub struct VirtPageNum(pub u64);

impl VirtPageNum {
    /// Wraps the number.
    pub fn new(vpn: u64) -> (r: Self)
        ensures
            r.0 == vpn,
    {
        VirtPageNum(vpn)
    }

    /// The number itself.
    pub fn as_usize(&self) -> (r: u64)
        ensures
            r == self.0,
    {
        self.0
    }

    /// The first address of the page.
    pub fn addr(&self) -> (r: VirtAddr)
        requires
            self.0 < 0x10_0000_0000_0000,
        ensures
            r.0 == base_of(self.0),
            r.0 == self.0 << 12,
    {
        VirtAddr(vpn_to_va(self.0))
    }

    /// The number of the page that holds `addr`.
    pub fn from_addr(addr: u64) -> (r: Self)
        ensures
            r.0 == page_of(addr),
            r.0 == addr >> 12,
    {
        VirtPageNum(va_to_vpn(addr))
    }

    /// The indexes into the three levels of an SV39 page table, root first.
    pub fn indexes(&self) -> (r: [usize; 3])
        ensures
            r[0] == (self.0 >> 18) & 0x1ff,
            r[1] == (self.0 >> 9) & 0x1ff,
            r[2] == self.0 & 0x1ff,
            r[0] == index_at(self.0, 2),
            r[1] == index_at(self.0, 1),
            r[2] == index_at(self.0, 0),
            r[0] < 512 && r[1] < 512 && r[2] < 512,
    {
        let vpn = self.0;
        proof {
            lemma_index_bits(vpn);
        }
        [
            ((vpn >> 18) & 0x1FF) as usize,
            ((vpn >> 9) & 0x1FF) as usize,
            (vpn & 0x1FF) as usize,
        ]
    }

    /// The page `rhs` pages further on.
    pub fn add(self, rhs: u64) -> (r: Self)
        requires
            self.0 + rhs <= u64::MAX,
        ensures
            r.0 == self.0 + rhs,
    {
        VirtPageNum(self.0 + rhs)
    }
}

impl From<u64> for PhysPageNum {
    fn from(v: u64) -> (r: Self) {
        PhysPageNum(v)
    }
}

impl vstd::std_specs::convert::FromSpecImpl<u64> for PhysPageNum {
    /// The conversion is as `from_spec` says.
    open spec fn obeys_from_spec() -> bool {
        true
    }

    /// The same number in the other type.
    open spec fn from_spec(v: u64) -> Self {
        PhysPageNum(v)
    }
}

impl From<PhysPageNum> for u64 {
    fn from(p: PhysPageNum) -> (r: u64) {
        p.0
    }
}

impl vstd::std_specs::convert::FromSpecImpl<PhysPageNum> for u64 {
    /// The conversion is as `from_spec` says.
    open spec fn obeys_from_spec() -> bool {
        true
    }

    /// The same number in the other type.
    open spec fn from_spec(p: PhysPageNum) -> u64 {
        p.0
    }
}

} // verus!
