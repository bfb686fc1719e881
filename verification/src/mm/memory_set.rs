//! Regions of an address space and the address space itself.
//!
//! A region is a run of virtual pages with one kind of mapping and one set
//! of permissions. A framed region owns the frames behind its pages and
//! their contents; an identical region maps each page to the frame of the
//! same number. An address space owns a page table and its regions.

use vstd::prelude::*;
use crate::mm::frame_allocator::BitmapFrameAllocator;
use crate::mm::memory_layout::{
    canonical_vpn, lemma_canonical_paths, lemma_page_bits, same_path, PhysPageNum, VirtAddr,
    VirtPageNum, PPN_LIMIT,
};
use crate::mm::page_table::{lemma_flag_bits, MapError, PTEFlags, PageTable};

verus! {

/// Number of bytes in a frame.
pub const FRAME_BYTES: usize = 4096;

/// One past the largest page number of the lower half of the address space.
pub const LOW_VPN_END: u64 = 0x400_0000;

/// The smallest page number of the upper half of the address space.
pub const HIGH_VPN_START: u64 = 0xF_FFFF_FC00_0000;

/// One past the largest page number.
pub const VPN_END: u64 = 0x10_0000_0000_0000;

/// How the pages of a region get their frames.
#[derive(Copy, Clone, Debug, PartialEq, Eq, Structural)]
pub enum MapType {
    /// Each page maps to the frame of the same number.
    Identical,
    /// Each page maps to a frame of its own, which the region owns.
    Framed,
}

/// What may be done with the pages of a region: a subset of read, write,
/// execute and user access, in the bit positions of the page-table flags.
#[derive(Copy, Clone, Debug, PartialEq, Eq, Structural)]
pub struct MapPermission(pub u8);

impl MapPermission {
    /// Readable.
    pub const R: u8 = 0x02;

    /// Writable.
    pub const W: u8 = 0x04;

    /// Executable.
    pub const X: u8 = 0x08;

    /// Accessible in user mode.
    pub const U: u8 = 0x10;

    /// All four permissions.
    pub const ALL: u8 = 0x1e;

    /// Whether every permission of `other` is in `self`.
    pub open spec fn has(self, other: MapPermission) -> bool {
        self.0 & other.0 == other.0
    }

    /// No permission.
    pub fn empty() -> (r: Self)
        ensures
            r.0 == 0,
    {
        MapPermission(0)
    }

    /// The permissions as a byte.
    pub fn bits(&self) -> (r: u8)
        ensures
            r == self.0,
    {
        self.0
    }

    /// The permissions that a byte stands for, if it holds no other bit.
    pub fn from_bits(bits: u8) -> (r: Option<Self>)
        ensures
            r == (if bits & !0x1eu8 == 0 {
                Some(MapPermission(bits))
            } else {
                None
            }),
    {
        if bits & !MapPermission::ALL == 0 {
            Some(MapPermission(bits))
        } else {
            None
        }
    }

    /// Whether every permission of `other` is in `self`.
    pub fn contains(&self, other: Self) -> (r: bool)
        ensures
            r == self.has(other),
    {
        (self.0 & other.0) == other.0
    }

    /// The permissions of both.
    pub fn union(self, other: Self) -> (r: Self)
        ensures
            r.0 == self.0 | other.0,
            r.has(self),
            r.has(other),
    {
        proof {
            lemma_flag_bits(self.0, other.0, 0);
        }
        MapPermission(self.0 | other.0)
    }
}

/// A run of virtual page numbers, `start` included and `end` not.
#[derive(Copy, Clone, Debug)]
pub struct VPNRange {
    pub start: VirtPageNum,
    pub end: VirtPageNum,
}

impl VPNRange {
    /// The pages from `start` up to, not including, `end`.
    pub fn new(start: VirtPageNum, end: VirtPageNum) -> (r: Self)
        ensures
            r.start == start,
            r.end == end,
    {
        VPNRange { start, end }
    }

    /// The first page.
    pub fn start(&self) -> (r: VirtPageNum)
        ensures
            r == self.start,
    {
        self.start
    }

    /// The page behind the last.
    pub fn end(&self) -> (r: VirtPageNum)
        ensures
            r == self.end,
    {
        self.end
    }

    /// Hands out the first page of the run and shortens the run by it.
    pub fn next(&mut self) -> (r: Option<VirtPageNum>)
        ensures
            final(self).end == old(self).end,
            old(self).start.0 < old(self).end.0 ==> r == Some(old(self).start)
                && final(self).start.0 == old(self).start.0 + 1,
            old(self).start.0 >= old(self).end.0 ==> r is None && *final(self) == *old(self),
    {
        if self.start.0 < self.end.0 {
            let vpn = self.start;
            self.start = VirtPageNum(vpn.0 + 1);
            Some(vpn)
        } else {
            None
        }
    }
}

/// A frame together with the bytes it holds. The owner of the tracker owns
/// the frame, and gives it back when it lets the tracker go.
pub struct FrameTracker {
    pub ppn: PhysPageNum,
    pub data: Vec<u8>,
}

impl FrameTracker {
    /// The frame number fits a page-table entry and the frame holds 4096 bytes.
    pub open spec fn wf(&self) -> bool {
        self.ppn.wf() && self.data@.len() == FRAME_BYTES
    }

    /// Takes charge of frame `ppn` and fills it with zeroes.
    pub fn new(ppn: PhysPageNum) -> (r: Self)
        ensures
            r.ppn == ppn,
            r.data@.len() == FRAME_BYTES,
            forall|i: int| 0 <= i < FRAME_BYTES ==> r.data@[i] == 0,
    {
        let mut data: Vec<u8> = Vec::new();
        let mut i: usize = 0;
        while i < FRAME_BYTES
            invariant
                i <= FRAME_BYTES,
                data@.len() == i,
                forall|j: int| 0 <= j < i ==> data@[j] == 0,
            decreases FRAME_BYTES - i,
        {
            data.push(0);
            i += 1;
        }
        FrameTracker { ppn, data }
    }
}

/// Number of tables below the root that the pages from `from` up to, but
/// without, `to` need when none is there yet: one last-level table for
/// every 512 pages that they touch, and one middle table for every 512
/// of those.
pub open spec fn tables_for(from: int, to: int) -> int {
    if to <= from {
        0
    } else {
        ((to - 1) / 512 - from / 512 + 1) + ((to - 1) / 0x4_0000 - from / 0x4_0000 + 1)
    }
}

/// Number of frames that mapping the pages from `from` up to, but
/// without, `to` takes at most: a frame for each page of a framed
/// region, none for a page of an identical region, and the tables.
pub open spec fn frames_for(kind: MapType, from: int, to: int) -> int {
    (if kind == MapType::Framed && from < to {
        to - from
    } else {
        0
    }) + tables_for(from, to)
}

/// The tables that a page misses are counted by `tables_for` once the
/// page before it translates.
pub proof fn lemma_table_step(pt: PageTable, from: u64, v: u64)
    requires
        from <= v,
        v < u64::MAX,
        v > from ==> pt.translate_spec(VirtPageNum((v - 1) as u64)) is Some,
    ensures
        pt.missing_tables(VirtPageNum(v)) <= tables_for(from as int, v + 1) - tables_for(
            from as int,
            v as int,
        ),
        tables_for(from as int, v as int) >= 0,
{
    pt.lemma_missing_bound(VirtPageNum(v));
    if v > from {
        let u = VirtPageNum((v - 1) as u64);
        pt.lemma_translated(u);
        if v / 512 == (v - 1) / 512 {
            assert(v / 0x4_0000 == (v - 1) / 0x4_0000);
            pt.lemma_missing_shared(u, VirtPageNum(v));
        } else if v / 0x4_0000 == (v - 1) / 0x4_0000 {
            pt.lemma_missing_below(u, VirtPageNum(v));
        }
    }
}

/// More pages need no fewer frames.
pub proof fn lemma_frames_for(kind: MapType, a: int, b: int, c: int, d: int)
    requires
        0 <= a <= b <= c <= d,
    ensures
        0 <= tables_for(b, c) <= tables_for(a, d),
        0 <= frames_for(kind, b, c) <= frames_for(kind, a, d),
        frames_for(kind, b, c) <= 3 * (c - b),
{
}

/// A page that a region mapped out of order, with the frame that it
/// translates to and, in a framed region, the frame itself.
pub struct ScatteredPage {
    vpn: u64,
    ppn: u64,
    frame: Option<FrameTracker>,
}

/// A region of an address space. The pages that were mapped in order,
/// from the first page on, are counted, and their frames stand in that
/// order; a page that was mapped out of order is noted by itself.
pub struct MapArea {
    vpn_range: VPNRange,
    data_frames: Vec<FrameTracker>,
    mapped: u64,
    scattered: Vec<ScatteredPage>,
    map_type: MapType,
    map_perm: MapPermission,
    start_va: u64,
}

/// What an operation that may only take frames leaves: the tables and the
/// frames of the region from before are still there, what was added was
/// free before, and the allocator has handed out exactly what was added.
#[verifier::opaque]
pub open spec fn grew(
    pt0: PageTable,
    pt1: PageTable,
    a0: MapArea,
    a1: MapArea,
    alloc0: BitmapFrameAllocator,
    alloc1: BitmapFrameAllocator,
) -> bool {
    &&& alloc1.start() == alloc0.start()
    &&& alloc1.end() == alloc0.end()
    &&& pt1.ppns().len() >= pt0.ppns().len()
    &&& forall|i: int| 0 <= i < pt0.ppns().len() ==> pt1.ppns()[i] == pt0.ppns()[i]
    &&& forall|i: int|
        pt0.ppns().len() <= i < pt1.ppns().len() ==> alloc0.is_free(#[trigger] pt1.ppns()[i])
    &&& a1.frame_ppns().len() >= a0.frame_ppns().len()
    &&& forall|i: int|
        0 <= i < a0.frame_ppns().len() ==> #[trigger] a1.frame_ppns()[i] == a0.frame_ppns()[i]
    &&& forall|i: int|
        0 <= i < a0.frame_ppns().len() ==> #[trigger] a1.frame_data(i) == a0.frame_data(i)
    &&& forall|i: int|
        a0.frame_ppns().len() <= i < a1.frame_ppns().len() ==> alloc0.is_free(
            #[trigger] a1.frame_ppns()[i],
        ) && a1.frame_data(i) == Seq::new(FRAME_BYTES as nat, |j: int| 0u8)
    &&& forall|q: u64|
        alloc1.is_allocated(q) == (alloc0.is_allocated(q) || pt1.owns(q) || a1.frame_ppns().contains(
            q,
        ))
    &&& alloc1.frames_in_use() - alloc0.frames_in_use() == (pt1.ppns().len() - pt0.ppns().len())
        + (a1.frame_ppns().len() - a0.frame_ppns().len())
}

/// What `grew` says that does not speak of who owns a frame.
pub proof fn lemma_grew(
    pt0: PageTable,
    pt1: PageTable,
    a0: MapArea,
    a1: MapArea,
    alloc0: BitmapFrameAllocator,
    alloc1: BitmapFrameAllocator,
)
    requires
        grew(pt0, pt1, a0, a1, alloc0, alloc1),
    ensures
        alloc1.start() == alloc0.start(),
        alloc1.end() == alloc0.end(),
        pt1.ppns().len() >= pt0.ppns().len(),
        forall|i: int| 0 <= i < pt0.ppns().len() ==> pt1.ppns()[i] == pt0.ppns()[i],
        forall|i: int|
            pt0.ppns().len() <= i < pt1.ppns().len() ==> alloc0.is_free(#[trigger] pt1.ppns()[i]),
        a1.frame_ppns().len() >= a0.frame_ppns().len(),
        forall|i: int|
            0 <= i < a0.frame_ppns().len() ==> #[trigger] a1.frame_ppns()[i] == a0.frame_ppns()[i],
        forall|i: int|
            a0.frame_ppns().len() <= i < a1.frame_ppns().len() ==> alloc0.is_free(
                #[trigger] a1.frame_ppns()[i],
            ),
        forall|q: u64| alloc0.is_allocated(q) ==> alloc1.is_allocated(q),
        alloc1.frames_in_use() - alloc0.frames_in_use() == (pt1.ppns().len() - pt0.ppns().len())
            + (a1.frame_ppns().len() - a0.frame_ppns().len()),
{
    reveal(grew);
}

/// Taking frames twice is taking frames.
pub proof fn lemma_grew_twice(
    pt0: PageTable,
    pt1: PageTable,
    pt2: PageTable,
    a0: MapArea,
    a1: MapArea,
    a2: MapArea,
    alloc0: BitmapFrameAllocator,
    alloc1: BitmapFrameAllocator,
    alloc2: BitmapFrameAllocator,
)
    requires
        grew(pt0, pt1, a0, a1, alloc0, alloc1),
        grew(pt1, pt2, a1, a2, alloc1, alloc2),
    ensures
        grew(pt0, pt2, a0, a2, alloc0, alloc2),
{
    reveal(grew);
    assert forall|i: int| pt0.ppns().len() <= i < pt2.ppns().len() implies alloc0.is_free(
        #[trigger] pt2.ppns()[i],
    ) by {
        if i < pt1.ppns().len() {
            assert(pt2.ppns()[i] == pt1.ppns()[i]);
            assert(alloc0.is_free(pt1.ppns()[i]));
        } else {
            assert(alloc1.is_free(pt2.ppns()[i]));
        }
    }
    assert forall|i: int| a0.frame_ppns().len() <= i < a2.frame_ppns().len() implies alloc0.is_free(
        #[trigger] a2.frame_ppns()[i],
    ) && a2.frame_data(i) == Seq::new(FRAME_BYTES as nat, |j: int| 0u8) by {
        if i < a1.frame_ppns().len() {
            assert(a2.frame_ppns()[i] == a1.frame_ppns()[i]);
            assert(alloc0.is_free(a1.frame_ppns()[i]));
        } else {
            assert(alloc1.is_free(a2.frame_ppns()[i]));
        }
    }
    assert forall|q: u64|
        alloc2.is_allocated(q) == (alloc0.is_allocated(q) || pt2.owns(q) || a2.frame_ppns().contains(
            q,
        )) by {
        if pt1.owns(q) {
            let i = choose|i: int| 0 <= i < pt1.ppns().len() && pt1.ppns()[i] == q;
            assert(pt2.ppns()[i] == q);
        }
        if a1.frame_ppns().contains(q) {
            let i = choose|i: int| 0 <= i < a1.frame_ppns().len() && a1.frame_ppns()[i] == q;
            assert(a2.frame_ppns()[i] == q);
        }
    }
}

impl MapArea {
    /// The first page of the region.
    pub closed spec fn start(&self) -> u64 {
        self.vpn_range.start.0
    }

    /// One past the last page of the region.
    pub closed spec fn end(&self) -> u64 {
        self.vpn_range.end.0
    }

    /// How the pages get their frames.
    pub closed spec fn kind(&self) -> MapType {
        self.map_type
    }

    /// The permissions of the pages.
    pub closed spec fn perm(&self) -> MapPermission {
        self.map_perm
    }

    /// How many pages, counted from the first, are mapped in order.
    pub closed spec fn mapped(&self) -> int {
        self.mapped as int
    }

    /// The address that the region was made for, which may lie inside its
    /// first page.
    pub closed spec fn first_va(&self) -> u64 {
        self.start_va
    }

    /// The frames that the region owns, in the order of its pages.
    pub closed spec fn frame_ppns(&self) -> Seq<u64> {
        Seq::new(self.data_frames@.len(), |k: int| self.data_frames@[k].ppn.0)
    }

    /// The bytes of the `k`-th frame that the region owns.
    pub closed spec fn frame_data(&self, k: int) -> Seq<u8> {
        self.data_frames@[k].data@
    }

    /// The pages that were mapped out of order, in the order in which
    /// they were mapped.
    pub closed spec fn scattered_pages(&self) -> Seq<u64> {
        Seq::new(self.scattered@.len(), |k: int| self.scattered@[k].vpn)
    }

    /// The frames that the pages mapped out of order translate to.
    pub closed spec fn scattered_frames(&self) -> Seq<u64> {
        Seq::new(self.scattered@.len(), |k: int| self.scattered@[k].ppn)
    }

    /// The region has the same pages out of order as `other`.
    pub open spec fn same_scattered(&self, other: MapArea) -> bool {
        self.scattered_pages() == other.scattered_pages() && self.scattered_frames()
            == other.scattered_frames()
    }

    /// Number of pages in the region.
    pub open spec fn page_count(&self) -> int {
        if self.start() <= self.end() {
            self.end() - self.start()
        } else {
            0
        }
    }

    /// The `k`-th page of the region.
    pub open spec fn page(&self, k: int) -> VirtPageNum {
        VirtPageNum((self.start() + k) as u64)
    }

    /// Whether `vpn` is one of the mapped pages of the region.
    pub open spec fn covers(&self, vpn: u64) -> bool {
        self.start() <= vpn < self.start() + self.mapped()
    }

    /// Whether `v` shares its path through a page table with one of the
    /// pages `lo` up to, but without, `hi` of the region.
    pub open spec fn touches(&self, lo: int, hi: int, v: VirtPageNum) -> bool {
        exists|k: int| lo <= k < hi && same_path(v.0, #[trigger] self.page(k).0)
    }

    /// The region lies in one half of the canonical address space, and an
    /// identical region in the lower one, where page numbers are frame numbers.
    pub open spec fn range_ok(&self) -> bool {
        &&& self.start() <= self.end()
        &&& self.end() <= LOW_VPN_END || (self.kind() == MapType::Framed && self.start()
            >= HIGH_VPN_START && self.end() <= VPN_END)
    }

    /// The frame behind the `k`-th page.
    pub open spec fn backing(&self, k: int) -> u64 {
        if self.kind() == MapType::Framed {
            self.frame_ppns()[k]
        } else {
            (self.start() + k) as u64
        }
    }

    /// The byte at offset `i` from the first page of a framed region.
    pub open spec fn byte(&self, i: int) -> u8 {
        self.frame_data(i / 4096)[i % 4096]
    }

    /// The invariant of a region by itself.
    pub open spec fn inv(&self) -> bool {
        &&& 0 <= self.mapped() <= self.page_count()
        &&& self.mapped() > 0 ==> self.range_ok()
        &&& self.first_va() / 4096 == self.start()
        &&& self.kind() == MapType::Framed ==> self.frame_ppns().len() == self.mapped()
        &&& self.kind() == MapType::Identical ==> self.frame_ppns().len() == 0
        &&& self.frame_ppns().no_duplicates()
        &&& forall|k: int|
            0 <= k < self.frame_ppns().len() ==> (#[trigger] self.frame_ppns()[k]) < PPN_LIMIT
        &&& forall|k: int|
            0 <= k < self.frame_ppns().len() ==> (#[trigger] self.frame_data(k)).len()
                == FRAME_BYTES
    }

    /// Every mapped page of the region translates to its frame, with at
    /// least the permissions of the region and the valid flag.
    pub open spec fn mapped_in(&self, pt: &PageTable) -> bool {
        forall|k: int|
            0 <= k < self.mapped() ==> {
                let t = #[trigger] pt.translate_spec(self.page(k));
                &&& t is Some
                &&& t.unwrap().0.0 == self.backing(k)
                &&& t.unwrap().1.has(PTEFlags(self.perm().0 | 1))
            }
    }

    /// Every frame of the region is marked as in use in `alloc`.
    pub open spec fn backed_by(&self, alloc: &BitmapFrameAllocator) -> bool {
        forall|i: int|
            0 <= i < self.frame_ppns().len() ==> alloc.is_allocated(#[trigger] self.frame_ppns()[i])
    }

    /// No frame of the region holds a table of `pt`.
    pub open spec fn disjoint_from(&self, pt: &PageTable) -> bool {
        forall|i: int| 0 <= i < self.frame_ppns().len() ==> !pt.owns(#[trigger] self.frame_ppns()[i])
    }

    /// The region, the page table that maps it and the allocator that
    /// backs both fit together.
    pub open spec fn attached(&self, pt: &PageTable, alloc: &BitmapFrameAllocator) -> bool {
        &&& self.inv()
        &&& pt.wf()
        &&& alloc.wf()
        &&& pt.backed_by(alloc)
        &&& self.backed_by(alloc)
        &&& self.disjoint_from(pt)
        &&& self.mapped_in(pt)
    }

    /// Every page of the region is mapped.
    pub open spec fn fully_mapped(&self) -> bool {
        self.mapped() == self.page_count()
    }

    /// A region over the pages from the one that holds `start_va` up to,
    /// but without, the one that holds `end_va`. No page is mapped yet.
    pub fn new(start_va: u64, end_va: u64, map_type: MapType, map_perm: MapPermission) -> (r:
        Self)
        ensures
            r.inv(),
            r.start() == start_va / 4096,
            r.end() == end_va / 4096,
            r.first_va() == start_va,
            r.kind() == map_type,
            r.perm() == map_perm,
            r.mapped() == 0,
            r.frame_ppns().len() == 0,
            r.scattered_pages().len() == 0,
    {
        let start_vpn = VirtAddr::new(start_va).page_number();
        let end_vpn = VirtAddr::new(end_va).page_number();
        let r = MapArea {
            vpn_range: VPNRange::new(start_vpn, end_vpn),
            data_frames: Vec::new(),
            mapped: 0,
            scattered: Vec::new(),
            map_type,
            map_perm,
            start_va,
        };
        r
    }

    /// The first address of the first page.
    pub fn start_va(&self) -> (r: u64)
        requires
            self.start() < VPN_END,
        ensures
            r == self.start() * 4096,
    {
        proof {
            lemma_page_bits(self.vpn_range.start.0);
        }
        self.vpn_range.start.0 << 12
    }

    /// The first address behind the last page. The page numbers of
    /// addresses end at 2^52, where this wraps to zero.
    pub fn end_va(&self) -> (r: u64)
        requires
            self.end() < VPN_END,
        ensures
            r == self.end() * 4096,
    {
        proof {
            lemma_page_bits(self.vpn_range.end.0);
        }
        self.vpn_range.end.0 << 12
    }

    /// The address that the region was made for.
    pub fn first_address(&self) -> (r: u64)
        ensures
            r == self.first_va(),
    {
        self.start_va
    }

    /// The pages of the region.
    pub fn vpn_range(&self) -> (r: VPNRange)
        ensures
            r.start.0 == self.start(),
            r.end.0 == self.end(),
    {
        self.vpn_range
    }

    /// How the pages get their frames.
    pub fn map_type(&self) -> (r: MapType)
        ensures
            r == self.kind(),
    {
        self.map_type
    }

    /// The permissions of the pages.
    pub fn map_perm(&self) -> (r: MapPermission)
        ensures
            r == self.perm(),
    {
        self.map_perm
    }

    /// How many pages, counted from the first, are mapped.
    pub fn mapped_pages(&self) -> (r: u64)
        ensures
            r == self.mapped(),
    {
        self.mapped
    }

    /// Whether the range of the region can be mapped.
    pub fn range_valid(&self) -> (r: bool)
        ensures
            r == self.range_ok(),
    {
        let s = self.vpn_range.start.0;
        let e = self.vpn_range.end.0;
        s <= e && (e <= LOW_VPN_END || (self.map_type == MapType::Framed && s >= HIGH_VPN_START
            && e <= VPN_END))
    }

    /// Gets the frame for page `vpn` and maps the page to it. The region
    /// itself does not change.
    fn acquire(
        &self,
        page_table: &mut PageTable,
        vpn: VirtPageNum,
        alloc: &mut BitmapFrameAllocator,
    ) -> (r: Result<PhysPageNum, MapError>)
        requires
            self.attached(old(page_table), old(alloc)),
            old(page_table).translate_spec(vpn) is None,
            self.kind() == MapType::Identical ==> vpn.0 < PPN_LIMIT,
        ensures
            self.attached(final(page_table), final(alloc)),
            final(alloc).start() == old(alloc).start(),
            final(alloc).end() == old(alloc).end(),
            final(page_table).ppns().len() >= old(page_table).ppns().len(),
            forall|i: int|
                0 <= i < old(page_table).ppns().len()
                    ==> final(page_table).ppns()[i] == old(page_table).ppns()[i],
            forall|i: int|
                old(page_table).ppns().len() <= i < final(page_table).ppns().len()
                    ==> old(alloc).is_free(#[trigger] final(page_table).ppns()[i]),
            forall|v: VirtPageNum|
                !same_path(v.0, vpn.0) || r is Err
                    ==> final(page_table).translate_spec(v) == old(page_table).translate_spec(v),
            forall|v: VirtPageNum|
                final(page_table).path_blocked(v) == old(page_table).path_blocked(v),
            r is Err ==> grew(
                *old(page_table),
                *final(page_table),
                *self,
                *self,
                *old(alloc),
                *final(alloc),
            ),
            final(page_table).ppns().len() <= old(page_table).ppns().len() + 2,
            final(page_table).ppns().len() - old(page_table).ppns().len()
                <= old(page_table).missing_tables(vpn),
            match r {
                Ok(p) => {
                    &&& final(page_table).translate_spec(vpn) == Some(
                        (p, PTEFlags(self.perm().0 | 1)),
                    )
                    &&& p.wf()
                    &&& self.kind() == MapType::Identical ==> p.0 == vpn.0 && (forall|q: u64|
                        final(alloc).is_allocated(q) == (old(alloc).is_allocated(q)
                            || final(page_table).owns(q)))
                            && final(alloc).frames_in_use() - old(alloc).frames_in_use()
                        == final(page_table).ppns().len() - old(page_table).ppns().len()
                    &&& self.kind() == MapType::Framed ==> old(alloc).is_free(p.0)
                        && !final(page_table).owns(p.0) && (forall|q: u64|
                        final(alloc).is_allocated(q) == (old(alloc).is_allocated(q)
                            || final(page_table).owns(q) || q == p.0))
                            && final(alloc).frames_in_use() - old(alloc).frames_in_use()
                            == final(page_table).ppns().len() - old(page_table).ppns().len() + 1
                },
                Err(e) => {
                    &&& e == MapError::OutOfMemory
                    &&& final(alloc).free_count() == 0
                    &&& old(alloc).free_count() < old(page_table).missing_tables(vpn) + (if self.kind()
                        == MapType::Framed {
                        1int
                    } else {
                        0int
                    })
                    &&& forall|q: u64|
                        final(alloc).is_allocated(q) == (old(alloc).is_allocated(q)
                            || final(page_table).owns(q))
                    &&& final(alloc).frames_in_use() - old(alloc).frames_in_use()
                        == final(page_table).ppns().len() - old(page_table).ppns().len()
                },
            },
    {
        proof {
            if page_table.path_blocked(vpn) {
                page_table.lemma_blocked(vpn);
            }
            old(alloc).lemma_allocated_finite();
        }
        match page_table.reserve(vpn, alloc) {
            Ok(()) => {},
            Err(e) => {
                proof {
                    self.lemma_kept(*old(page_table), *page_table, *old(alloc), *alloc);
                }
                return Err(e);
            },
        }
        let ghost pt1 = *page_table;
        let ghost alloc1 = *alloc;
        proof {
            self.lemma_kept(*old(page_table), *page_table, *old(alloc), *alloc);
            alloc1.lemma_allocated_finite();
        }
        let ppn = match self.map_type {
            MapType::Identical => PhysPageNum(vpn.0),
            MapType::Framed => match alloc.alloc_frame() {
                Some(p) => p,
                None => {
                    return Err(MapError::OutOfMemory);
                },
            },
        };
        let ghost alloc2 = *alloc;
        proof {
            alloc2.lemma_allocated_finite();
            assert(page_table.backed_by(alloc)) by {
                assert forall|i: int| 0 <= i < page_table.ppns().len() implies alloc.is_allocated(
                    #[trigger] page_table.ppns()[i],
                ) by {
                    assert(alloc1.is_allocated(page_table.ppns()[i]));
                }
            }
        }
        let r = page_table.map(vpn, ppn, PTEFlags(self.map_perm.0), alloc);
        proof {
            assert(r is Ok);
            assert(page_table.ppns() =~= pt1.ppns());
            assert(forall|q: u64| alloc.is_allocated(q) == alloc2.is_allocated(q)) by {
                assert forall|q: u64| page_table.owns(q) implies alloc2.is_allocated(q) by {
                    let i = choose|i: int|
                        0 <= i < page_table.ppns().len() && page_table.ppns()[i] == q;
                    assert(alloc1.is_allocated(pt1.ppns()[i]));
                }
            }
            assert(!page_table.owns(ppn.0) || self.kind() == MapType::Identical) by {
                if page_table.owns(ppn.0) {
                    let i = choose|i: int|
                        0 <= i < page_table.ppns().len() && page_table.ppns()[i] == ppn.0;
                    assert(alloc1.is_allocated(pt1.ppns()[i]));
                }
            }
            assert(self.backed_by(alloc)) by {
                assert forall|i: int| 0 <= i < self.frame_ppns().len() implies alloc.is_allocated(
                    #[trigger] self.frame_ppns()[i],
                ) by {
                    assert(alloc1.is_allocated(self.frame_ppns()[i]));
                }
            }
            assert(self.mapped_in(page_table)) by {
                assert forall|k: int| 0 <= k < self.mapped() implies {
                    let t = #[trigger] page_table.translate_spec(self.page(k));
                    &&& t is Some
                    &&& t.unwrap().0.0 == self.backing(k)
                    &&& t.unwrap().1.has(PTEFlags(self.perm().0 | 1))
                } by {
                    let t0 = pt1.translate_spec(self.page(k));
                    assert(t0 is Some);
                    if same_path(self.page(k).0, vpn.0) {
                        pt1.lemma_same_path(self.page(k), vpn);
                    }
                }
            }
        }
        Ok(ppn)
    }

    /// Maps page `vpn`, which must be the first page of the region that is
    /// not mapped yet: to the frame of the same number in an identical
    /// region, to a fresh frame filled with zeroes in a framed one.
    ///
    /// Fails with `OutOfRange` if the range of the region cannot be mapped
    /// or `vpn` is not the next page, with `AlreadyMapped` if the page
    /// translates already, and with `OutOfMemory` if fewer frames are free
    /// than the tables and the page need. Only the tables that could be
    /// made before memory ran out stay then.
    #[verifier::rlimit(100)]
    fn map_next(
        &mut self,
        page_table: &mut PageTable,
        vpn: VirtPageNum,
        alloc: &mut BitmapFrameAllocator,
    ) -> (r: Result<(), MapError>)
        requires
            old(self).attached(old(page_table), old(alloc)),
        ensures
            final(self).same_scattered(*old(self)),
            final(self).attached(final(page_table), final(alloc)),
            grew(
                *old(page_table),
                *final(page_table),
                *old(self),
                *final(self),
                *old(alloc),
                *final(alloc),
            ),
            final(self).start() == old(self).start(),
            final(self).end() == old(self).end(),
            final(self).kind() == old(self).kind(),
            final(self).perm() == old(self).perm(),
            final(self).first_va() == old(self).first_va(),
            forall|v: VirtPageNum|
                !same_path(v.0, vpn.0) || r is Err
                    ==> final(page_table).translate_spec(v) == old(page_table).translate_spec(v),
            forall|v: VirtPageNum|
                old(page_table).translate_spec(v) is Some ==> final(page_table).translate_spec(v)
                    == old(page_table).translate_spec(v),
            forall|v: VirtPageNum|
                final(page_table).path_blocked(v) == old(page_table).path_blocked(v),
            final(page_table).ppns().len() <= old(page_table).ppns().len() + 2,
            final(page_table).ppns().len() - old(page_table).ppns().len()
                <= old(page_table).missing_tables(vpn),
            match r {
                Ok(()) => {
                    &&& old(self).range_ok()
                    &&& vpn.0 == old(self).start() + old(self).mapped()
                    &&& vpn.0 < old(self).end()
                    &&& old(page_table).translate_spec(vpn) is None
                    &&& final(self).mapped() == old(self).mapped() + 1
                    &&& final(page_table).translate_spec(vpn) == Some(
                        (
                            PhysPageNum(final(self).backing(old(self).mapped())),
                            PTEFlags(old(self).perm().0 | 1),
                        ),
                    )
                },
                Err(e) => {
                    &&& final(self).mapped() == old(self).mapped()
                    &&& final(self).frame_ppns() == old(self).frame_ppns()
                    &&& e == MapError::OutOfRange <==> !(old(self).range_ok()
                        && vpn.0 == old(self).start() + old(self).mapped()
                        && vpn.0 < old(self).end())
                    &&& e == MapError::AlreadyMapped <==> e != MapError::OutOfRange
                        && old(page_table).translate_spec(vpn) is Some
                    &&& e == MapError::OutOfMemory <==> e != MapError::OutOfRange && e
                        != MapError::AlreadyMapped
                    &&& e == MapError::OutOfMemory ==> final(alloc).free_count() == 0
                        && old(alloc).free_count() < old(page_table).missing_tables(vpn)
                        + (if old(self).kind()
                        == MapType::Framed {
                        1int
                    } else {
                        0int
                    })
                },
            },
    {
        if !self.range_valid() || vpn.0 >= self.vpn_range.end.0 || vpn.0 < self.vpn_range.start.0
            || vpn.0 - self.vpn_range.start.0 != self.mapped {
            proof {
                self.lemma_same(*page_table, *alloc);
            }
            return Err(MapError::OutOfRange);
        }
        if page_table.translate(vpn).is_some() {
            proof {
                self.lemma_same(*page_table, *alloc);
            }
            return Err(MapError::AlreadyMapped);
        }
        let ppn = match self.acquire(page_table, vpn, alloc) {
            Ok(p) => p,
            Err(e) => {
                return Err(e);
            },
        };
        if self.map_type == MapType::Framed {
            let frame = FrameTracker::new(ppn);
            proof {
                assert(frame.data@ =~= Seq::new(FRAME_BYTES as nat, |j: int| 0u8));
            }
            self.data_frames.push(frame);
        }
        self.mapped = self.mapped + 1;
        proof {
            if self.map_type == MapType::Framed {
                assert(self.frame_ppns() =~= old(self).frame_ppns().push(ppn.0));
            } else {
                assert(self.frame_ppns() =~= old(self).frame_ppns());
            }
            assert forall|i: int| 0 <= i < old(self).frame_ppns().len() implies self.frame_data(i)
                == old(self).frame_data(i) by {}
            assert forall|v: VirtPageNum|
                old(page_table).translate_spec(v) is Some implies page_table.translate_spec(v)
                    == old(page_table).translate_spec(v) by {
                if same_path(v.0, vpn.0) {
                    old(page_table).lemma_same_path(v, vpn);
                }
            }
            self.lemma_extended(
                *old(self),
                *old(page_table),
                *page_table,
                *old(alloc),
                *alloc,
                vpn,
                ppn,
            );
        }
        Ok(())
    }

    /// Nothing changed: the frames are as they were.
    proof fn lemma_same(&self, pt: PageTable, alloc: BitmapFrameAllocator)
        requires
            self.attached(&pt, &alloc),
        ensures
            grew(pt, pt, *self, *self, alloc, alloc),
    {
        reveal(grew);
        alloc.lemma_allocated_finite();
        assert forall|q: u64|
            alloc.is_allocated(q) == (alloc.is_allocated(q) || pt.owns(q)
                || self.frame_ppns().contains(q)) by {
            if pt.owns(q) {
                let i = choose|i: int| 0 <= i < pt.ppns().len() && pt.ppns()[i] == q;
                assert(alloc.is_allocated(pt.ppns()[i]));
            }
            if self.frame_ppns().contains(q) {
                let i = choose|i: int|
                    0 <= i < self.frame_ppns().len() && self.frame_ppns()[i] == q;
                assert(alloc.is_allocated(self.frame_ppns()[i]));
            }
        }
    }

    /// What holds once the region has taken over the page that `acquire` mapped.
    proof fn lemma_extended(
        &self,
        before: Self,
        pt0: PageTable,
        pt1: PageTable,
        alloc0: BitmapFrameAllocator,
        alloc1: BitmapFrameAllocator,
        vpn: VirtPageNum,
        ppn: PhysPageNum,
    )
        requires
            before.attached(&pt0, &alloc0),
            before.attached(&pt1, &alloc1),
            before.range_ok(),
            vpn.0 == before.start() + before.mapped(),
            vpn.0 < before.end(),
            self.start() == before.start(),
            self.end() == before.end(),
            self.kind() == before.kind(),
            self.perm() == before.perm(),
            self.first_va() == before.first_va(),
            self.mapped() == before.mapped() + 1,
            before.kind() == MapType::Framed ==> self.frame_ppns() == before.frame_ppns().push(
                ppn.0,
            ) && self.frame_data(before.frame_ppns().len() as int) == Seq::new(
                FRAME_BYTES as nat,
                |j: int| 0u8,
            ),
            before.kind() == MapType::Identical ==> self.frame_ppns() == before.frame_ppns(),
            forall|i: int|
                0 <= i < before.frame_ppns().len() ==> self.frame_data(i) == before.frame_data(i),
            alloc1.start() == alloc0.start(),
            alloc1.end() == alloc0.end(),
            pt1.ppns().len() >= pt0.ppns().len(),
            forall|i: int| 0 <= i < pt0.ppns().len() ==> pt1.ppns()[i] == pt0.ppns()[i],
            forall|i: int|
                pt0.ppns().len() <= i < pt1.ppns().len() ==> alloc0.is_free(
                    #[trigger] pt1.ppns()[i],
                ),
            pt1.translate_spec(vpn) == Some((ppn, PTEFlags(before.perm().0 | 1))),
            ppn.wf(),
            before.kind() == MapType::Identical ==> ppn.0 == vpn.0 && (forall|q: u64|
                alloc1.is_allocated(q) == (alloc0.is_allocated(q) || pt1.owns(q)))
                && alloc1.frames_in_use() - alloc0.frames_in_use() == pt1.ppns().len()
                - pt0.ppns().len(),
            before.kind() == MapType::Framed ==> alloc0.is_free(ppn.0) && !pt1.owns(ppn.0) && (
            forall|q: u64|
                alloc1.is_allocated(q) == (alloc0.is_allocated(q) || pt1.owns(q) || q == ppn.0))
                && alloc1.frames_in_use() - alloc0.frames_in_use() == pt1.ppns().len()
                - pt0.ppns().len() + 1,
        ensures
            self.attached(&pt1, &alloc1),
            grew(pt0, pt1, before, *self, alloc0, alloc1),
            pt1.translate_spec(vpn) == Some(
                (PhysPageNum(self.backing(before.mapped())), PTEFlags(before.perm().0 | 1)),
            ),
    {
        reveal(grew);
        let m = before.mapped();
        assert(self.page(m) == vpn);
        lemma_flag_bits(self.perm().0 | 1, 0, 0);
        assert forall|k: int| 0 <= k < self.mapped() implies {
            let t = #[trigger] pt1.translate_spec(self.page(k));
            &&& t is Some
            &&& t.unwrap().0.0 == self.backing(k)
            &&& t.unwrap().1.has(PTEFlags(self.perm().0 | 1))
        } by {
            if k < m {
                let t0 = pt1.translate_spec(before.page(k));
                assert(t0 is Some);
                assert(before.page(k) == self.page(k));
                assert(before.backing(k) == self.backing(k));
            }
        }
        if self.kind() == MapType::Framed {
            let n = before.frame_ppns().len() as int;
            assert(self.frame_ppns()[n] == ppn.0);
            assert forall|i: int, j: int|
                0 <= i < self.frame_ppns().len() && 0 <= j < self.frame_ppns().len() && i
                    != j implies self.frame_ppns()[i] != self.frame_ppns()[j] by {
                if i < n {
                    assert(alloc0.is_allocated(before.frame_ppns()[i]));
                }
                if j < n {
                    assert(alloc0.is_allocated(before.frame_ppns()[j]));
                }
            }
            assert forall|i: int| 0 <= i < self.frame_ppns().len() implies !pt1.owns(
                #[trigger] self.frame_ppns()[i],
            ) by {
                if i < n {
                    assert(before.frame_ppns()[i] == self.frame_ppns()[i]);
                }
            }
            assert forall|i: int| 0 <= i < self.frame_ppns().len() implies alloc1.is_allocated(
                #[trigger] self.frame_ppns()[i],
            ) by {
                if i < n {
                    assert(alloc1.is_allocated(before.frame_ppns()[i]));
                }
            }
            assert forall|k: int| 0 <= k < self.frame_ppns().len() implies (
            #[trigger] self.frame_data(k)).len() == FRAME_BYTES by {
                if k < n {
                    assert(before.frame_data(k).len() == FRAME_BYTES);
                }
            }
            assert forall|q: u64|
                alloc1.is_allocated(q) == (alloc0.is_allocated(q) || pt1.owns(q)
                    || self.frame_ppns().contains(q)) by {
                if self.frame_ppns().contains(q) {
                    let i = choose|i: int|
                        0 <= i < self.frame_ppns().len() && self.frame_ppns()[i] == q;
                    assert(alloc1.is_allocated(self.frame_ppns()[i]));
                }
            }
        } else {
            assert forall|q: u64|
                alloc1.is_allocated(q) == (alloc0.is_allocated(q) || pt1.owns(q)
                    || self.frame_ppns().contains(q)) by {
                if self.frame_ppns().contains(q) {
                    let i = choose|i: int|
                        0 <= i < self.frame_ppns().len() && self.frame_ppns()[i] == q;
                }
            }
        }
    }

    /// What holds of the region after the page table alone took frames.
    proof fn lemma_kept(
        &self,
        pt0: PageTable,
        pt1: PageTable,
        alloc0: BitmapFrameAllocator,
        alloc1: BitmapFrameAllocator,
    )
        requires
            self.attached(&pt0, &alloc0),
            pt1.wf(),
            alloc1.wf(),
            pt1.backed_by(&alloc1),
            alloc1.start() == alloc0.start(),
            alloc1.end() == alloc0.end(),
            pt1.ppns().len() >= pt0.ppns().len(),
            forall|i: int| 0 <= i < pt0.ppns().len() ==> pt1.ppns()[i] == pt0.ppns()[i],
            forall|i: int|
                pt0.ppns().len() <= i < pt1.ppns().len() ==> alloc0.is_free(
                    #[trigger] pt1.ppns()[i],
                ),
            forall|q: u64| alloc1.is_allocated(q) == (alloc0.is_allocated(q) || pt1.owns(q)),
            alloc1.frames_in_use() - alloc0.frames_in_use() == pt1.ppns().len() - pt0.ppns().len(),
            forall|v: VirtPageNum| pt1.translate_spec(v) == pt0.translate_spec(v),
        ensures
            self.attached(&pt1, &alloc1),
            grew(pt0, pt1, *self, *self, alloc0, alloc1),
    {
        reveal(grew);
        assert forall|i: int| 0 <= i < self.frame_ppns().len() implies !pt1.owns(
            #[trigger] self.frame_ppns()[i],
        ) by {
            let q = self.frame_ppns()[i];
            assert(alloc0.is_allocated(q));
            if pt1.owns(q) {
                let m = choose|m: int| 0 <= m < pt1.ppns().len() && pt1.ppns()[m] == q;
                if m < pt0.ppns().len() {
                    assert(pt0.ppns()[m] == q);
                    assert(pt0.owns(q));
                } else {
                    assert(alloc0.is_free(pt1.ppns()[m]));
                }
            }
        }
        assert forall|i: int| 0 <= i < self.frame_ppns().len() implies alloc1.is_allocated(
            #[trigger] self.frame_ppns()[i],
        ) by {
            assert(alloc0.is_allocated(self.frame_ppns()[i]));
        }
        assert forall|q: u64|
            alloc1.is_allocated(q) == (alloc0.is_allocated(q) || pt1.owns(q)
                || self.frame_ppns().contains(q)) by {
            if self.frame_ppns().contains(q) {
                let i = choose|i: int|
                    0 <= i < self.frame_ppns().len() && self.frame_ppns()[i] == q;
                assert(alloc0.is_allocated(self.frame_ppns()[i]));
            }
        }
        assert forall|k: int| 0 <= k < self.mapped() implies {
            let t = #[trigger] pt1.translate_spec(self.page(k));
            &&& t is Some
            &&& t.unwrap().0.0 == self.backing(k)
            &&& t.unwrap().1.has(PTEFlags(self.perm().0 | 1))
        } by {
            let t0 = pt0.translate_spec(self.page(k));
            assert(t0 is Some);
        }
    }

    /// Unmaps page `vpn`, which must be the last mapped page of the region,
    /// and gives its frame back if the region is framed.
    ///
    /// Fails with `OutOfRange` if `vpn` is not the last mapped page, and
    /// with `LeafInPath` if a higher entry on the path of the page maps it;
    /// nothing changes then.
    #[verifier::rlimit(100)]
    fn unmap_last(
        &mut self,
        page_table: &mut PageTable,
        vpn: VirtPageNum,
        alloc: &mut BitmapFrameAllocator,
    ) -> (r: Result<(), MapError>)
        requires
            old(self).attached(old(page_table), old(alloc)),
        ensures
            final(self).same_scattered(*old(self)),
            final(self).attached(final(page_table), final(alloc)),
            final(alloc).start() == old(alloc).start(),
            final(alloc).end() == old(alloc).end(),
            final(page_table).ppns() == old(page_table).ppns(),
            final(self).start() == old(self).start(),
            final(self).end() == old(self).end(),
            final(self).kind() == old(self).kind(),
            final(self).perm() == old(self).perm(),
            final(self).first_va() == old(self).first_va(),
            forall|v: VirtPageNum|
                !same_path(v.0, vpn.0) || r is Err
                    ==> final(page_table).translate_spec(v) == old(page_table).translate_spec(v),
            forall|i: int|
                0 <= i < final(self).frame_ppns().len()
                    ==> final(self).frame_data(i) == old(self).frame_data(i),
            forall|v: VirtPageNum|
                final(page_table).path_blocked(v) == old(page_table).path_blocked(v),
            match r {
                Ok(()) => {
                    &&& old(self).mapped() > 0
                    &&& vpn.0 == old(self).start() + old(self).mapped() - 1
                    &&& final(self).mapped() == old(self).mapped() - 1
                    &&& final(page_table).translate_spec(vpn) is None
                    &&& old(self).kind() == MapType::Framed
                        ==> final(self).frame_ppns() == old(self).frame_ppns().drop_last()
                        && (forall|q: u64|
                        final(alloc).is_allocated(q) == (old(alloc).is_allocated(q)
                            && q != old(self).frame_ppns().last()))
                            && final(alloc).frames_in_use() + 1 == old(alloc).frames_in_use()
                    &&& old(self).kind() == MapType::Identical
                        ==> final(self).frame_ppns() == old(self).frame_ppns() && (forall|q: u64|
                        final(alloc).is_allocated(q) == old(alloc).is_allocated(q))
                            && final(alloc).frames_in_use() == old(alloc).frames_in_use()
                },
                Err(e) => {
                    &&& final(self).mapped() == old(self).mapped()
                    &&& final(self).frame_ppns() == old(self).frame_ppns()
                    &&& forall|q: u64| final(alloc).is_allocated(q) == old(alloc).is_allocated(q)
                    &&& final(alloc).frames_in_use() == old(alloc).frames_in_use()
                    &&& e == MapError::OutOfRange || e == MapError::LeafInPath
                    &&& e == MapError::OutOfRange <==> !(old(self).mapped() > 0
                        && vpn.0 == old(self).start() + old(self).mapped() - 1)
                    &&& e == MapError::LeafInPath ==> old(page_table).path_blocked(vpn)
                },
            },
    {
        if self.mapped == 0 || vpn.0 < self.vpn_range.start.0 || vpn.0 - self.vpn_range.start.0
            != self.mapped - 1 {
            return Err(MapError::OutOfRange);
        }
        proof {
            let t = page_table.translate_spec(self.page(self.mapped() - 1));
            assert(t is Some);
            assert(self.page(self.mapped() - 1) == vpn);
        }
        match page_table.unmap(vpn) {
            Ok(_) => {},
            Err(e) => {
                return Err(e);
            },
        }
        if self.map_type == MapType::Framed {
            let frame = self.data_frames.pop().unwrap();
            proof {
                assert(old(self).frame_ppns().last() == frame.ppn.0);
                assert(alloc.is_allocated(old(self).frame_ppns()[old(self).mapped() - 1]));
            }
            alloc.dealloc(frame.ppn);
        }
        self.mapped = self.mapped - 1;
        proof {
            if self.map_type == MapType::Framed {
                assert(self.frame_ppns() =~= old(self).frame_ppns().drop_last());
            } else {
                assert(self.frame_ppns() =~= old(self).frame_ppns());
            }
            assert forall|i: int| 0 <= i < self.frame_ppns().len() implies self.frame_data(i)
                == old(self).frame_data(i) by {}
            self.lemma_shrunk(*old(self), *old(page_table), *page_table, *old(alloc), *alloc, vpn);
        }
        Ok(())
    }

    /// What holds once the last mapped page of the region is gone.
    proof fn lemma_shrunk(
        &self,
        before: Self,
        pt0: PageTable,
        pt1: PageTable,
        alloc0: BitmapFrameAllocator,
        alloc1: BitmapFrameAllocator,
        vpn: VirtPageNum,
    )
        requires
            before.attached(&pt0, &alloc0),
            before.mapped() > 0,
            vpn.0 == before.start() + before.mapped() - 1,
            self.start() == before.start(),
            self.end() == before.end(),
            self.kind() == before.kind(),
            self.perm() == before.perm(),
            self.first_va() == before.first_va(),
            self.mapped() == before.mapped() - 1,
            before.kind() == MapType::Framed ==> self.frame_ppns()
                == before.frame_ppns().drop_last() && (forall|q: u64|
                alloc1.is_allocated(q) == (alloc0.is_allocated(q) && q
                    != before.frame_ppns().last())),
            before.kind() == MapType::Identical ==> self.frame_ppns() == before.frame_ppns() && (
            forall|q: u64| alloc1.is_allocated(q) == alloc0.is_allocated(q)),
            forall|i: int|
                0 <= i < self.frame_ppns().len() ==> self.frame_data(i) == before.frame_data(i),
            pt1.wf(),
            alloc1.wf(),
            pt1.ppns() == pt0.ppns(),
            forall|v: VirtPageNum|
                !same_path(v.0, vpn.0) ==> pt1.translate_spec(v) == pt0.translate_spec(v),
        ensures
            self.attached(&pt1, &alloc1),
    {
        let m = before.mapped();
        assert forall|k: int| 0 <= k < self.mapped() implies {
            let t = #[trigger] pt1.translate_spec(self.page(k));
            &&& t is Some
            &&& t.unwrap().0.0 == self.backing(k)
            &&& t.unwrap().1.has(PTEFlags(self.perm().0 | 1))
        } by {
            before.lemma_pages(k, m - 1);
            let t0 = pt0.translate_spec(before.page(k));
            assert(t0 is Some);
            assert(before.page(k) == self.page(k));
            assert(before.backing(k) == self.backing(k));
        }
        assert forall|i: int| 0 <= i < pt1.ppns().len() implies alloc1.is_allocated(
            #[trigger] pt1.ppns()[i],
        ) by {
            assert(alloc0.is_allocated(pt0.ppns()[i]));
            if before.kind() == MapType::Framed {
                assert(!pt0.owns(before.frame_ppns()[m - 1]));
                assert(pt0.owns(pt0.ppns()[i]));
            }
        }
        assert forall|i: int| 0 <= i < self.frame_ppns().len() implies alloc1.is_allocated(
            #[trigger] self.frame_ppns()[i],
        ) by {
            assert(alloc0.is_allocated(before.frame_ppns()[i]));
            assert(before.frame_ppns()[i] != before.frame_ppns()[m - 1]);
        }
        assert forall|i: int| 0 <= i < self.frame_ppns().len() implies !pt1.owns(
            #[trigger] self.frame_ppns()[i],
        ) by {
            assert(!pt0.owns(before.frame_ppns()[i]));
        }
        assert forall|k: int| 0 <= k < self.frame_ppns().len() implies (#[trigger] self.frame_data(
            k,
        )).len() == FRAME_BYTES by {
            assert(before.frame_data(k).len() == FRAME_BYTES);
        }
        assert forall|k: int| 0 <= k < self.frame_ppns().len() implies (
        #[trigger] self.frame_ppns()[k]) < PPN_LIMIT by {
            assert(before.frame_ppns()[k] < PPN_LIMIT);
        }
    }

    /// Whether `vpn` is the page that comes next in order: the first page
    /// of the region that is not mapped in order yet.
    pub open spec fn next_in_order(&self, vpn: u64) -> bool {
        self.range_ok() && vpn == self.start() + self.mapped() && vpn < self.end()
    }

    /// Whether the region can map `vpn` out of order: the page number is
    /// canonical, and in an identical region it is a frame number.
    pub open spec fn mappable(&self, vpn: u64) -> bool {
        canonical_vpn(vpn) && (self.kind() == MapType::Framed || vpn < PPN_LIMIT)
    }

    /// Page `i` of those mapped out of order fits the page table and the
    /// allocator: it is no page mapped in order, it translates to its
    /// frame with at least the permissions of the region, and in a framed
    /// region its frame is in use and belongs to nothing else.
    pub open spec fn scattered_entry_ok(
        &self,
        i: int,
        pt: &PageTable,
        alloc: &BitmapFrameAllocator,
    ) -> bool {
        let v = self.scattered_pages()[i];
        let f = self.scattered_frames()[i];
        let t = pt.translate_spec(VirtPageNum(v));
        &&& canonical_vpn(v)
        &&& !self.covers(v)
        &&& t is Some
        &&& t.unwrap().0.0 == f
        &&& t.unwrap().1.has(PTEFlags(self.perm().0 | 1))
        &&& self.kind() == MapType::Identical ==> f == v
        &&& self.kind() == MapType::Framed ==> alloc.is_allocated(f) && !pt.owns(f)
            && !self.frame_ppns().contains(f)
    }

    /// The pages mapped out of order fit the page table and the
    /// allocator, and no page and no frame stands among them twice.
    pub open spec fn scattered_ok(&self, pt: &PageTable, alloc: &BitmapFrameAllocator) -> bool {
        &&& self.scattered_frames().len() == self.scattered_pages().len()
        &&& forall|i: int|
            0 <= i < self.scattered_pages().len() ==> #[trigger] self.scattered_entry_ok(
                i,
                pt,
                alloc,
            )
        &&& forall|i: int, j: int|
            0 <= i < j < self.scattered_pages().len() ==> self.scattered_pages()[i]
                != self.scattered_pages()[j]
        &&& self.kind() == MapType::Framed ==> forall|i: int, j: int|
            0 <= i < j < self.scattered_pages().len() ==> self.scattered_frames()[i]
                != self.scattered_frames()[j]
    }

    /// The pages that leave the pages mapped in order when the page at
    /// place `idx` is unmapped: the pages behind it, the last first.
    pub open spec fn demoted_pages(&self, idx: int) -> Seq<u64> {
        Seq::new(
            (self.mapped() - 1 - idx) as nat,
            |j: int| (self.start() + self.mapped() - 1 - j) as u64,
        )
    }

    /// The frames of the pages that leave the pages mapped in order.
    pub open spec fn demoted_frames(&self, idx: int) -> Seq<u64> {
        Seq::new((self.mapped() - 1 - idx) as nat, |j: int| self.backing(self.mapped() - 1 - j))
    }

    /// The pages mapped out of order are in order still after the region
    /// took frames for a page mapped in order, or only the page table
    /// took frames.
    proof fn lemma_scattered_grown(
        &self,
        a0: MapArea,
        pt0: PageTable,
        pt1: PageTable,
        alloc0: BitmapFrameAllocator,
        alloc1: BitmapFrameAllocator,
    )
        requires
            a0.attached(&pt0, &alloc0),
            a0.scattered_ok(&pt0, &alloc0),
            grew(pt0, pt1, a0, *self, alloc0, alloc1),
            self.same_scattered(a0),
            self.kind() == a0.kind(),
            self.perm() == a0.perm(),
            self.start() == a0.start(),
            a0.mapped() <= self.mapped() <= a0.mapped() + 1,
            self.mapped() == a0.mapped() + 1 ==> pt0.translate_spec(
                VirtPageNum((a0.start() + a0.mapped()) as u64),
            ) is None,
            forall|v: VirtPageNum|
                pt0.translate_spec(v) is Some ==> pt1.translate_spec(v) == pt0.translate_spec(v),
        ensures
            self.scattered_ok(&pt1, &alloc1),
    {
        reveal(grew);
        assert forall|i: int| 0 <= i
            < self.scattered_pages().len() implies #[trigger] self.scattered_entry_ok(
            i,
            &pt1,
            &alloc1,
        ) by {
            assert(a0.scattered_entry_ok(i, &pt0, &alloc0));
            let v = a0.scattered_pages()[i];
            let f = a0.scattered_frames()[i];
            assert(pt1.translate_spec(VirtPageNum(v)) == pt0.translate_spec(VirtPageNum(v)));
            if self.kind() == MapType::Framed {
                if pt1.owns(f) {
                    let k = choose|k: int| 0 <= k < pt1.ppns().len() && pt1.ppns()[k] == f;
                    if k < pt0.ppns().len() {
                        assert(pt0.ppns()[k] == f);
                        assert(pt0.owns(f));
                    } else {
                        assert(alloc0.is_free(pt1.ppns()[k]));
                    }
                }
                if self.frame_ppns().contains(f) {
                    let k = choose|k: int|
                        0 <= k < self.frame_ppns().len() && self.frame_ppns()[k] == f;
                    if k < a0.frame_ppns().len() {
                        assert(self.frame_ppns()[k] == a0.frame_ppns()[k]);
                        assert(a0.frame_ppns().contains(f));
                    } else {
                        assert(alloc0.is_free(self.frame_ppns()[k]));
                    }
                }
            }
        }
    }

    /// Maps page `vpn`: to the frame of the same number in an identical
    /// region, to a fresh frame filled with zeroes in a framed one. The
    /// pages of a region can be mapped in any order. The page that comes
    /// next in order joins the pages mapped in order; any other page is
    /// noted as mapped out of order.
    ///
    /// Fails with `OutOfRange` if the page does not come next in order
    /// and its number is not canonical or, in an identical region, no
    /// frame number; with `AlreadyMapped` if the page translates already;
    /// and with `OutOfMemory` if fewer frames are free than the tables and
    /// the page need. Only the tables that could be made before memory
    /// ran out stay then.
    #[verifier::rlimit(100)]
    pub fn map_one(
        &mut self,
        page_table: &mut PageTable,
        vpn: VirtPageNum,
        alloc: &mut BitmapFrameAllocator,
    ) -> (r: Result<(), MapError>)
        requires
            old(self).attached(old(page_table), old(alloc)),
            old(self).scattered_ok(old(page_table), old(alloc)),
        ensures
            final(self).attached(final(page_table), final(alloc)),
            final(self).scattered_ok(final(page_table), final(alloc)),
            final(self).start() == old(self).start(),
            final(self).end() == old(self).end(),
            final(self).kind() == old(self).kind(),
            final(self).perm() == old(self).perm(),
            final(self).first_va() == old(self).first_va(),
            final(alloc).start() == old(alloc).start(),
            final(alloc).end() == old(alloc).end(),
            forall|v: VirtPageNum|
                !same_path(v.0, vpn.0) || r is Err
                    ==> final(page_table).translate_spec(v) == old(page_table).translate_spec(v),
            forall|v: VirtPageNum|
                old(page_table).translate_spec(v) is Some ==> final(page_table).translate_spec(v)
                    == old(page_table).translate_spec(v),
            forall|v: VirtPageNum|
                final(page_table).path_blocked(v) == old(page_table).path_blocked(v),
            final(page_table).ppns().len() - old(page_table).ppns().len()
                <= old(page_table).missing_tables(vpn),
            final(alloc).frames_in_use() - old(alloc).frames_in_use()
                == (final(page_table).ppns().len() - old(page_table).ppns().len()) + (if r is Ok
                && old(self).kind()
                == MapType::Framed {
                1int
            } else {
                0int
            }),
            forall|q: u64| old(alloc).is_allocated(q) ==> final(alloc).is_allocated(q),
            match r {
                Ok(()) => {
                    &&& old(page_table).translate_spec(vpn) is None
                    &&& old(self).next_in_order(vpn.0) ==> {
                        &&& final(self).mapped() == old(self).mapped() + 1
                        &&& final(self).same_scattered(*old(self))
                        &&& final(page_table).translate_spec(vpn) == Some(
                            (
                                PhysPageNum(final(self).backing(old(self).mapped())),
                                PTEFlags(old(self).perm().0 | 1),
                            ),
                        )
                        &&& grew(
                            *old(page_table),
                            *final(page_table),
                            *old(self),
                            *final(self),
                            *old(alloc),
                            *final(alloc),
                        )
                    }
                    &&& !old(self).next_in_order(vpn.0) ==> {
                        &&& old(self).mappable(vpn.0)
                        &&& final(self).mapped() == old(self).mapped()
                        &&& final(self).frame_ppns() == old(self).frame_ppns()
                        &&& final(self).scattered_pages() == old(self).scattered_pages().push(vpn.0)
                        &&& final(self).scattered_frames().drop_last() == old(self).scattered_frames()
                        &&& final(page_table).translate_spec(vpn) == Some(
                            (
                                PhysPageNum(final(self).scattered_frames().last()),
                                PTEFlags(old(self).perm().0 | 1),
                            ),
                        )
                        &&& old(self).kind() == MapType::Identical
                            ==> final(self).scattered_frames().last() == vpn.0
                        &&& old(self).kind() == MapType::Framed ==> old(alloc).is_free(
                            final(self).scattered_frames().last(),
                        )
                    }
                },
                Err(e) => {
                    &&& final(self).mapped() == old(self).mapped()
                    &&& final(self).frame_ppns() == old(self).frame_ppns()
                    &&& final(self).same_scattered(*old(self))
                    &&& e == MapError::OutOfRange <==> !old(self).next_in_order(vpn.0)
                        && !old(self).mappable(vpn.0)
                    &&& e == MapError::AlreadyMapped <==> e != MapError::OutOfRange
                        && old(page_table).translate_spec(vpn) is Some
                    &&& e == MapError::OutOfMemory <==> e != MapError::OutOfRange && e
                        != MapError::AlreadyMapped
                    &&& e == MapError::OutOfMemory ==> final(alloc).free_count() == 0
                        && old(alloc).free_count() < old(page_table).missing_tables(vpn)
                        + (if old(self).kind()
                        == MapType::Framed {
                        1int
                    } else {
                        0int
                    })
                },
            },
    {
        proof {
            old(alloc).lemma_allocated_finite();
        }
        if self.range_valid() && vpn.0 < self.vpn_range.end.0 && vpn.0 >= self.vpn_range.start.0
            && vpn.0 - self.vpn_range.start.0 == self.mapped {
            let r = self.map_next(page_table, vpn, alloc);
            proof {
                lemma_grew(
                    *old(page_table),
                    *page_table,
                    *old(self),
                    *self,
                    *old(alloc),
                    *alloc,
                );
                self.lemma_scattered_grown(
                    *old(self),
                    *old(page_table),
                    *page_table,
                    *old(alloc),
                    *alloc,
                );
                alloc.lemma_allocated_finite();
            }
            return r;
        }
        let canonical = vpn.0 < 0x400_0000 || (vpn.0 >= 0xF_FFFF_FC00_0000 && vpn.0
            <= 0xF_FFFF_FFFF_FFFF);
        let fits = match self.map_type {
            MapType::Framed => true,
            MapType::Identical => vpn.0 < PPN_LIMIT,
        };
        if !canonical || !fits {
            return Err(MapError::OutOfRange);
        }
        if page_table.translate(vpn).is_some() {
            return Err(MapError::AlreadyMapped);
        }
        let ppn = match self.acquire(page_table, vpn, alloc) {
            Ok(p) => p,
            Err(e) => {
                proof {
                    lemma_grew(*old(page_table), *page_table, *self, *self, *old(alloc), *alloc);
                    self.lemma_scattered_grown(
                        *old(self),
                        *old(page_table),
                        *page_table,
                        *old(alloc),
                        *alloc,
                    );
                    alloc.lemma_allocated_finite();
                }
                return Err(e);
            },
        };
        let frame = match self.map_type {
            MapType::Framed => Some(FrameTracker::new(ppn)),
            MapType::Identical => None,
        };
        self.scattered.push(ScatteredPage { vpn: vpn.0, ppn: ppn.0, frame });
        proof {
            alloc.lemma_allocated_finite();
            assert(self.scattered_pages() =~= old(self).scattered_pages().push(vpn.0));
            assert(self.scattered_frames() =~= old(self).scattered_frames().push(ppn.0));
            assert(self.scattered_frames().drop_last() =~= old(self).scattered_frames());
            assert(self.frame_ppns() =~= old(self).frame_ppns());
            assert forall|v: VirtPageNum|
                old(page_table).translate_spec(v) is Some implies page_table.translate_spec(v)
                    == old(page_table).translate_spec(v) by {
                if same_path(v.0, vpn.0) {
                    old(page_table).lemma_same_path(v, vpn);
                }
            }
            self.lemma_scattered_pushed(
                *old(self),
                *old(page_table),
                *page_table,
                *old(alloc),
                *alloc,
                vpn,
                ppn,
            );
        }
        Ok(())
    }

    /// The region is in order once a page was mapped out of order.
    proof fn lemma_scattered_pushed(
        &self,
        a0: MapArea,
        pt0: PageTable,
        pt1: PageTable,
        alloc0: BitmapFrameAllocator,
        alloc1: BitmapFrameAllocator,
        vpn: VirtPageNum,
        ppn: PhysPageNum,
    )
        requires
            a0.attached(&pt0, &alloc0),
            a0.scattered_ok(&pt0, &alloc0),
            a0.attached(&pt1, &alloc1),
            a0.mappable(vpn.0),
            pt0.translate_spec(vpn) is None,
            pt1.translate_spec(vpn) == Some((ppn, PTEFlags(a0.perm().0 | 1))),
            forall|v: VirtPageNum|
                pt0.translate_spec(v) is Some ==> pt1.translate_spec(v) == pt0.translate_spec(v),
            forall|i: int| 0 <= i < pt0.ppns().len() ==> pt1.ppns()[i] == pt0.ppns()[i],
            pt1.ppns().len() >= pt0.ppns().len(),
            forall|i: int|
                pt0.ppns().len() <= i < pt1.ppns().len() ==> alloc0.is_free(#[trigger] pt1.ppns()[i]),
            a0.kind() == MapType::Identical ==> ppn.0 == vpn.0 && (forall|q: u64|
                alloc1.is_allocated(q) == (alloc0.is_allocated(q) || pt1.owns(q))),
            a0.kind() == MapType::Framed ==> alloc0.is_free(ppn.0) && !pt1.owns(ppn.0) && (forall|
                q: u64,
            |
                alloc1.is_allocated(q) == (alloc0.is_allocated(q) || pt1.owns(q) || q == ppn.0)),
            self.start() == a0.start(),
            self.end() == a0.end(),
            self.kind() == a0.kind(),
            self.perm() == a0.perm(),
            self.first_va() == a0.first_va(),
            self.mapped() == a0.mapped(),
            self.frame_ppns() == a0.frame_ppns(),
            forall|i: int| 0 <= i < a0.frame_ppns().len() ==> self.frame_data(i) == a0.frame_data(i),
            self.scattered_pages() == a0.scattered_pages().push(vpn.0),
            self.scattered_frames() == a0.scattered_frames().push(ppn.0),
        ensures
            self.attached(&pt1, &alloc1),
            self.scattered_ok(&pt1, &alloc1),
    {
        let n = a0.scattered_pages().len() as int;
        lemma_flag_bits((a0.perm().0 | 1) as u8, 0, 0);
        assert forall|k: int| 0 <= k < self.mapped() implies {
            let t = #[trigger] pt1.translate_spec(self.page(k));
            &&& t is Some
            &&& t.unwrap().0.0 == self.backing(k)
            &&& t.unwrap().1.has(PTEFlags(self.perm().0 | 1))
        } by {
            let t = pt1.translate_spec(a0.page(k));
            assert(a0.backing(k) == self.backing(k));
        }
        assert forall|i: int| 0 <= i
            < self.scattered_pages().len() implies #[trigger] self.scattered_entry_ok(
            i,
            &pt1,
            &alloc1,
        ) by {
            if i < n {
                assert(a0.scattered_entry_ok(i, &pt0, &alloc0));
                let v = a0.scattered_pages()[i];
                let f = a0.scattered_frames()[i];
                assert(self.scattered_pages()[i] == v);
                assert(self.scattered_frames()[i] == f);
                assert(pt1.translate_spec(VirtPageNum(v)) == pt0.translate_spec(VirtPageNum(v)));
                if self.kind() == MapType::Framed {
                    if pt1.owns(f) {
                        let k = choose|k: int| 0 <= k < pt1.ppns().len() && pt1.ppns()[k] == f;
                        if k < pt0.ppns().len() {
                            assert(pt0.ppns()[k] == f);
                            assert(pt0.owns(f));
                        } else {
                            assert(alloc0.is_free(pt1.ppns()[k]));
                        }
                    }
                }
            } else {
                assert(self.scattered_pages()[i] == vpn.0);
                assert(self.scattered_frames()[i] == ppn.0);
                if self.covers(vpn.0) {
                    let t = pt0.translate_spec(a0.page(vpn.0 - a0.start()));
                    assert(a0.page(vpn.0 - a0.start()) == vpn);
                }
                if self.kind() == MapType::Framed {
                    if self.frame_ppns().contains(ppn.0) {
                        let k = choose|k: int|
                            0 <= k < a0.frame_ppns().len() && a0.frame_ppns()[k] == ppn.0;
                        assert(alloc0.is_allocated(a0.frame_ppns()[k]));
                    }
                }
            }
        }
        assert forall|i: int, j: int| 0 <= i < j
            < self.scattered_pages().len() implies self.scattered_pages()[i]
            != self.scattered_pages()[j] by {
            if j == n {
                assert(a0.scattered_entry_ok(i, &pt0, &alloc0));
            }
        }
        if self.kind() == MapType::Framed {
            assert forall|i: int, j: int| 0 <= i < j
                < self.scattered_pages().len() implies self.scattered_frames()[i]
                != self.scattered_frames()[j] by {
                if j == n {
                    assert(a0.scattered_entry_ok(i, &pt0, &alloc0));
                }
            }
        }
    }

    /// Where `vpn` stands among the pages mapped out of order.
    fn find_scattered(&self, vpn: u64) -> (r: Option<usize>)
        ensures
            match r {
                Some(i) => i < self.scattered_pages().len() && self.scattered_pages()[i as int]
                    == vpn,
                None => !self.scattered_pages().contains(vpn),
            },
    {
        let mut i: usize = 0;
        while i < self.scattered.len()
            invariant
                i <= self.scattered@.len(),
                forall|j: int| 0 <= j < i ==> self.scattered_pages()[j] != vpn,
            decreases self.scattered@.len() - i,
        {
            if self.scattered[i].vpn == vpn {
                return Some(i);
            }
            i += 1;
        }
        None
    }

    /// Notes the pages mapped in order behind place `idx` as mapped out
    /// of order, the last first, so that the page at `idx` is the last
    /// page mapped in order.
    fn demote_tail(&mut self, idx: u64)
        requires
            old(self).inv(),
            idx < old(self).mapped(),
        ensures
            final(self).start() == old(self).start(),
            final(self).end() == old(self).end(),
            final(self).kind() == old(self).kind(),
            final(self).perm() == old(self).perm(),
            final(self).first_va() == old(self).first_va(),
            final(self).mapped() == idx + 1,
            old(self).kind() == MapType::Framed
                ==> final(self).frame_ppns() == old(self).frame_ppns().subrange(0, idx + 1),
            old(self).kind() == MapType::Identical ==> final(self).frame_ppns() == old(self).frame_ppns(),
            forall|k: int|
                0 <= k < final(self).frame_ppns().len()
                    ==> final(self).frame_data(k) == old(self).frame_data(k),
            final(self).scattered_pages() == old(self).scattered_pages() + old(self).demoted_pages(
                idx as int,
            ),
            final(self).scattered_frames() == old(self).scattered_frames()
                + old(self).demoted_frames(idx as int),
    {
        let start = self.vpn_range.start.0;
        while self.mapped > idx + 1
            invariant
                old(self).inv(),
                idx < self.mapped <= old(self).mapped,
                start == old(self).vpn_range.start.0,
                self.vpn_range == old(self).vpn_range,
                self.map_type == old(self).map_type,
                self.map_perm == old(self).map_perm,
                self.start_va == old(self).start_va,
                self.map_type == MapType::Framed
                    ==> self.data_frames@ == old(self).data_frames@.subrange(0, self.mapped as int),
                self.map_type == MapType::Identical ==> self.data_frames@ == old(self).data_frames@,
                self.scattered@.len() == old(self).scattered@.len() + (old(self).mapped
                    - self.mapped),
                forall|j: int|
                    0 <= j < old(self).scattered@.len() ==> self.scattered@[j] == old(self).scattered@[j],
                forall|j: int|
                    0 <= j < old(self).mapped - self.mapped
                        ==> (#[trigger] self.scattered@[old(self).scattered@.len() + j]).vpn
                        == start + old(self).mapped - 1 - j
                        && self.scattered@[old(self).scattered@.len() + j].ppn
                            == old(self).backing(old(self).mapped - 1 - j),
            decreases self.mapped,
        {
            let page = start + (self.mapped - 1);
            let ghost before = self.scattered@;
            let entry = match self.map_type {
                MapType::Framed => {
                    let f = self.data_frames.pop().unwrap();
                    ScatteredPage { vpn: page, ppn: f.ppn.0, frame: Some(f) }
                },
                MapType::Identical => ScatteredPage { vpn: page, ppn: page, frame: None },
            };
            self.scattered.push(entry);
            self.mapped = self.mapped - 1;
            proof {
                if self.map_type == MapType::Framed {
                    assert(self.data_frames@ =~= old(self).data_frames@.subrange(
                        0,
                        self.mapped as int,
                    ));
                }
                assert forall|j: int| 0 <= j < old(self).mapped - self.mapped implies (
                #[trigger] self.scattered@[old(self).scattered@.len() + j]).vpn == start
                    + old(self).mapped - 1 - j
                    && self.scattered@[old(self).scattered@.len() + j].ppn
                    == old(self).backing(old(self).mapped - 1 - j) by {
                    if j < old(self).mapped - self.mapped - 1 {
                        assert(self.scattered@[old(self).scattered@.len() + j]
                            == before[old(self).scattered@.len() + j]);
                    }
                }
            }
        }
        proof {
            if self.map_type == MapType::Framed {
                assert(self.frame_ppns() =~= old(self).frame_ppns().subrange(0, idx + 1));
            } else {
                assert(self.frame_ppns() =~= old(self).frame_ppns());
            }
            let n = old(self).scattered@.len() as int;
            let sp = old(self).scattered_pages() + old(self).demoted_pages(idx as int);
            let sf = old(self).scattered_frames() + old(self).demoted_frames(idx as int);
            assert(self.scattered_pages().len() == sp.len());
            assert forall|i: int| 0 <= i < sp.len() implies self.scattered_pages()[i] == sp[i]
                && self.scattered_frames()[i] == sf[i] by {
                if i < n {
                    assert(self.scattered@[i] == old(self).scattered@[i]);
                } else {
                    let j = i - n;
                    assert(self.scattered@[n + j].vpn == start + old(self).mapped - 1 - j);
                    assert(sp[i] == old(self).demoted_pages(idx as int)[j]);
                    assert(sf[i] == old(self).demoted_frames(idx as int)[j]);
                }
            }
            assert(self.scattered_pages() =~= sp);
            assert(self.scattered_frames() =~= sf);
        }
    }

    /// Unmaps page `vpn` and gives its frame back if the region is
    /// framed. The pages of a region can be unmapped in any order. When a
    /// page leaves the pages mapped in order, the pages behind it are
    /// noted as mapped out of order; they stay mapped.
    ///
    /// Fails with `OutOfRange` if the region has not mapped the page, and
    /// with `LeafInPath` if a higher entry on the path of the page maps
    /// it; nothing changes then.
    #[verifier::rlimit(100)]
    pub fn unmap_one(
        &mut self,
        page_table: &mut PageTable,
        vpn: VirtPageNum,
        alloc: &mut BitmapFrameAllocator,
    ) -> (r: Result<(), MapError>)
        requires
            old(self).attached(old(page_table), old(alloc)),
            old(self).scattered_ok(old(page_table), old(alloc)),
        ensures
            final(self).attached(final(page_table), final(alloc)),
            final(self).scattered_ok(final(page_table), final(alloc)),
            final(alloc).start() == old(alloc).start(),
            final(alloc).end() == old(alloc).end(),
            final(page_table).ppns() == old(page_table).ppns(),
            final(self).start() == old(self).start(),
            final(self).end() == old(self).end(),
            final(self).kind() == old(self).kind(),
            final(self).perm() == old(self).perm(),
            final(self).first_va() == old(self).first_va(),
            forall|v: VirtPageNum|
                !same_path(v.0, vpn.0) || r is Err
                    ==> final(page_table).translate_spec(v) == old(page_table).translate_spec(v),
            forall|i: int|
                0 <= i < final(self).frame_ppns().len()
                    ==> final(self).frame_data(i) == old(self).frame_data(i),
            forall|v: VirtPageNum|
                final(page_table).path_blocked(v) == old(page_table).path_blocked(v),
            match r {
                Ok(()) => {
                    &&& old(page_table).translate_spec(vpn) is Some
                    &&& final(page_table).translate_spec(vpn) is None
                    &&& old(self).kind() == MapType::Framed ==> (forall|q: u64|
                        final(alloc).is_allocated(q) == (old(alloc).is_allocated(q)
                            && q != old(page_table).translate_spec(vpn).unwrap().0.0))
                            && final(alloc).frames_in_use() + 1
                        == old(alloc).frames_in_use()
                    &&& old(self).kind() == MapType::Identical ==> (forall|q: u64|
                        final(alloc).is_allocated(q) == old(alloc).is_allocated(q))
                            && final(alloc).frames_in_use() == old(alloc).frames_in_use()
                    &&& old(self).covers(vpn.0) ==> {
                        &&& final(self).mapped() == vpn.0 - old(self).start()
                        &&& final(self).frame_ppns() == (if old(self).kind() == MapType::Framed {
                            old(self).frame_ppns().subrange(0, vpn.0 - old(self).start())
                        } else {
                            old(self).frame_ppns()
                        })
                        &&& final(self).scattered_pages() == old(self).scattered_pages()
                            + old(self).demoted_pages(vpn.0 - old(self).start())
                        &&& final(self).scattered_frames() == old(self).scattered_frames()
                            + old(self).demoted_frames(vpn.0 - old(self).start())
                    }
                    &&& !old(self).covers(vpn.0) ==> {
                        &&& final(self).mapped() == old(self).mapped()
                        &&& final(self).frame_ppns() == old(self).frame_ppns()
                        &&& exists|i: int|
                            0 <= i < old(self).scattered_pages().len()
                                && old(self).scattered_pages()[i] == vpn.0
                                && final(self).scattered_pages()
                                == old(self).scattered_pages().remove(i)
                                && final(self).scattered_frames()
                                == old(self).scattered_frames().remove(i)
                    }
                },
                Err(e) => {
                    &&& final(self).mapped() == old(self).mapped()
                    &&& final(self).frame_ppns() == old(self).frame_ppns()
                    &&& final(self).same_scattered(*old(self))
                    &&& forall|q: u64| final(alloc).is_allocated(q) == old(alloc).is_allocated(q)
                    &&& final(alloc).frames_in_use() == old(alloc).frames_in_use()
                    &&& e == MapError::OutOfRange || e == MapError::LeafInPath
                    &&& e == MapError::OutOfRange <==> !old(self).covers(vpn.0)
                        && !old(self).scattered_pages().contains(vpn.0)
                    &&& e == MapError::LeafInPath ==> old(page_table).path_blocked(vpn)
                },
            },
    {
        let start = self.vpn_range.start.0;
        proof {
            old(alloc).lemma_allocated_finite();
        }
        if vpn.0 >= start && vpn.0 - start < self.mapped {
            let idx = vpn.0 - start;
            proof {
                let t = page_table.translate_spec(self.page(idx as int));
                assert(t is Some);
                assert(self.page(idx as int) == vpn);
            }
            match page_table.unmap(vpn) {
                Ok(_) => {},
                Err(e) => {
                    return Err(e);
                },
            }
            self.demote_tail(idx);
            let ghost dense = self.frame_ppns();
            proof {
                assert(self.data_frames@.len() == self.frame_ppns().len());
                if self.map_type == MapType::Framed {
                    assert(old(self).frame_ppns().len() == old(self).mapped());
                    assert(dense[idx as int] == old(self).frame_ppns()[idx as int]);
                }
            }
            if self.map_type == MapType::Framed {
                let frame = self.data_frames.pop().unwrap();
                proof {
                    assert(frame.ppn.0 == dense[idx as int]);
                    assert(frame.ppn.0 == old(self).frame_ppns()[idx as int]);
                    assert(alloc.is_allocated(old(self).frame_ppns()[idx as int]));
                }
                alloc.dealloc(frame.ppn);
            }
            self.mapped = idx;
            proof {
                if self.map_type == MapType::Framed {
                    assert(self.frame_ppns() =~= dense.drop_last());
                    assert(self.frame_ppns() =~= old(self).frame_ppns().subrange(0, idx as int));
                } else {
                    assert(self.frame_ppns() =~= old(self).frame_ppns());
                }
                self.lemma_unmapped(
                    *old(self),
                    *old(page_table),
                    *page_table,
                    *old(alloc),
                    *alloc,
                    vpn,
                );
                self.lemma_unmapped_scattered(
                    *old(self),
                    *old(page_table),
                    *page_table,
                    *old(alloc),
                    *alloc,
                    vpn,
                );
            }
            return Ok(());
        }
        let i = match self.find_scattered(vpn.0) {
            Some(i) => i,
            None => {
                return Err(MapError::OutOfRange);
            },
        };
        proof {
            assert(self.scattered_entry_ok(i as int, page_table, alloc));
        }
        match page_table.unmap(vpn) {
            Ok(_) => {},
            Err(e) => {
                return Err(e);
            },
        }
        let entry = self.scattered.remove(i);
        if self.map_type == MapType::Framed {
            alloc.dealloc(PhysPageNum(entry.ppn));
        }
        proof {
            assert(self.scattered_pages() =~= old(self).scattered_pages().remove(i as int));
            assert(self.scattered_frames() =~= old(self).scattered_frames().remove(i as int));
            assert(self.frame_ppns() =~= old(self).frame_ppns());
            self.lemma_unscattered(
                *old(self),
                *old(page_table),
                *page_table,
                *old(alloc),
                *alloc,
                vpn,
                i as int,
            );
        }
        Ok(())
    }

    /// The pages mapped in order fit the page table and the allocator
    /// once one of them is unmapped and the pages behind it have left
    /// them.
    proof fn lemma_unmapped(
        &self,
        a0: MapArea,
        pt0: PageTable,
        pt1: PageTable,
        alloc0: BitmapFrameAllocator,
        alloc1: BitmapFrameAllocator,
        vpn: VirtPageNum,
    )
        requires
            self.unmapped_pre(a0, pt0, pt1, alloc0, alloc1, vpn),
        ensures
            self.attached(&pt1, &alloc1),
    {
        let idx = vpn.0 - a0.start();
        assert(a0.range_ok());
        assert forall|i: int| 0 <= i < pt1.ppns().len() implies alloc1.is_allocated(
            #[trigger] pt1.ppns()[i],
        ) by {
            assert(alloc0.is_allocated(pt0.ppns()[i]));
            if a0.kind() == MapType::Framed {
                assert(!pt0.owns(a0.frame_ppns()[idx]));
            }
        }
        assert forall|i: int| 0 <= i < self.frame_ppns().len() implies alloc1.is_allocated(
            #[trigger] self.frame_ppns()[i],
        ) && !pt1.owns(self.frame_ppns()[i]) && self.frame_ppns()[i] < PPN_LIMIT
            && self.frame_data(i).len() == FRAME_BYTES by {
            assert(self.frame_ppns()[i] == a0.frame_ppns()[i]);
            assert(alloc0.is_allocated(a0.frame_ppns()[i]));
            assert(!pt0.owns(a0.frame_ppns()[i]));
            assert(a0.frame_data(i).len() == FRAME_BYTES);
        }
        assert(self.frame_ppns().no_duplicates()) by {
            assert forall|i: int, j: int|
                0 <= i < self.frame_ppns().len() && 0 <= j < self.frame_ppns().len() && i
                    != j implies self.frame_ppns()[i] != self.frame_ppns()[j] by {
                assert(a0.frame_ppns()[i] != a0.frame_ppns()[j]);
            }
        }
        assert forall|k: int| 0 <= k < self.mapped() implies {
            let t = #[trigger] pt1.translate_spec(self.page(k));
            &&& t is Some
            &&& t.unwrap().0.0 == self.backing(k)
            &&& t.unwrap().1.has(PTEFlags(self.perm().0 | 1))
        } by {
            let t = pt0.translate_spec(a0.page(k));
            if same_path(a0.page(k).0, vpn.0) {
                lemma_canonical_paths(a0.page(k).0, vpn.0);
            }
            assert(self.backing(k) == a0.backing(k));
        }
    }

    /// What `unmap_one` knows once a page mapped in order is unmapped.
    pub open spec fn unmapped_pre(
        &self,
        a0: MapArea,
        pt0: PageTable,
        pt1: PageTable,
        alloc0: BitmapFrameAllocator,
        alloc1: BitmapFrameAllocator,
        vpn: VirtPageNum,
    ) -> bool {
        let idx = vpn.0 - a0.start();
        &&& a0.attached(&pt0, &alloc0)
        &&& a0.scattered_ok(&pt0, &alloc0)
        &&& a0.covers(vpn.0)
        &&& self.start() == a0.start()
        &&& self.end() == a0.end()
        &&& self.kind() == a0.kind()
        &&& self.perm() == a0.perm()
        &&& self.first_va() == a0.first_va()
        &&& self.mapped() == idx
        &&& a0.kind() == MapType::Framed ==> self.frame_ppns() == a0.frame_ppns().subrange(0, idx)
        &&& a0.kind() == MapType::Identical ==> self.frame_ppns() == a0.frame_ppns()
        &&& forall|k: int|
            0 <= k < self.frame_ppns().len() ==> self.frame_data(k) == a0.frame_data(k)
        &&& self.scattered_pages() == a0.scattered_pages() + a0.demoted_pages(idx)
        &&& self.scattered_frames() == a0.scattered_frames() + a0.demoted_frames(idx)
        &&& pt1.wf()
        &&& pt1.ppns() == pt0.ppns()
        &&& forall|v: VirtPageNum|
            !same_path(v.0, vpn.0) ==> pt1.translate_spec(v) == pt0.translate_spec(v)
        &&& alloc1.wf()
        &&& alloc1.start() == alloc0.start()
        &&& alloc1.end() == alloc0.end()
        &&& a0.kind() == MapType::Framed ==> forall|q: u64|
            alloc1.is_allocated(q) == (alloc0.is_allocated(q) && q != a0.frame_ppns()[idx])
        &&& a0.kind() == MapType::Identical ==> forall|q: u64|
            alloc1.is_allocated(q) == alloc0.is_allocated(q)
    }

    /// The pages mapped out of order fit the page table and the
    /// allocator once a page mapped in order is unmapped and the pages
    /// behind it have joined them.
    #[verifier::rlimit(100)]
    proof fn lemma_unmapped_scattered(
        &self,
        a0: MapArea,
        pt0: PageTable,
        pt1: PageTable,
        alloc0: BitmapFrameAllocator,
        alloc1: BitmapFrameAllocator,
        vpn: VirtPageNum,
    )
        requires
            self.unmapped_pre(a0, pt0, pt1, alloc0, alloc1, vpn),
        ensures
            self.scattered_ok(&pt1, &alloc1),
    {
        let idx = vpn.0 - a0.start();
        let n = a0.scattered_pages().len() as int;
        let m = a0.mapped();
        assert(a0.range_ok());
        assert forall|i: int| 0 <= i
            < self.scattered_pages().len() implies #[trigger] self.scattered_entry_ok(
            i,
            &pt1,
            &alloc1,
        ) by {
            if i < n {
                assert(a0.scattered_entry_ok(i, &pt0, &alloc0));
                let v = a0.scattered_pages()[i];
                let f = a0.scattered_frames()[i];
                assert(self.scattered_pages()[i] == v);
                assert(self.scattered_frames()[i] == f);
                if same_path(v, vpn.0) {
                    lemma_canonical_paths(v, vpn.0);
                }
                assert(pt1.translate_spec(VirtPageNum(v)) == pt0.translate_spec(VirtPageNum(v)));
                if a0.kind() == MapType::Framed {
                    assert(a0.frame_ppns().contains(a0.frame_ppns()[idx]));
                    if self.frame_ppns().contains(f) {
                        let k = choose|k: int|
                            0 <= k < self.frame_ppns().len() && self.frame_ppns()[k] == f;
                        assert(a0.frame_ppns()[k] == f);
                        assert(a0.frame_ppns().contains(f));
                    }
                }
            } else {
                let j = i - n;
                let k = m - 1 - j;
                let v = (a0.start() + k) as u64;
                assert(self.scattered_pages()[i] == a0.demoted_pages(idx)[j]);
                assert(self.scattered_frames()[i] == a0.demoted_frames(idx)[j]);
                assert(a0.page(k) == VirtPageNum(v));
                let t = pt0.translate_spec(a0.page(k));
                if same_path(v, vpn.0) {
                    lemma_canonical_paths(v, vpn.0);
                }
                assert(pt1.translate_spec(VirtPageNum(v)) == pt0.translate_spec(VirtPageNum(v)));
                if a0.kind() == MapType::Framed {
                    assert(alloc0.is_allocated(a0.frame_ppns()[k]));
                    assert(!pt0.owns(a0.frame_ppns()[k]));
                    assert(a0.frame_ppns()[k] != a0.frame_ppns()[idx]);
                    if self.frame_ppns().contains(a0.frame_ppns()[k]) {
                        let l = choose|l: int|
                            0 <= l < self.frame_ppns().len() && self.frame_ppns()[l]
                                == a0.frame_ppns()[k];
                        assert(a0.frame_ppns()[l] == a0.frame_ppns()[k]);
                    }
                }
            }
        }
        assert forall|i: int, j: int| 0 <= i < j
            < self.scattered_pages().len() implies self.scattered_pages()[i]
            != self.scattered_pages()[j] by {
            if j >= n {
                assert(self.scattered_pages()[j] == a0.demoted_pages(idx)[j - n]);
                if i < n {
                    assert(a0.scattered_entry_ok(i, &pt0, &alloc0));
                    assert(self.scattered_pages()[i] == a0.scattered_pages()[i]);
                } else {
                    assert(self.scattered_pages()[i] == a0.demoted_pages(idx)[i - n]);
                }
            } else {
                assert(self.scattered_pages()[i] == a0.scattered_pages()[i]);
                assert(self.scattered_pages()[j] == a0.scattered_pages()[j]);
            }
        }
        if self.kind() == MapType::Framed {
            assert forall|i: int, j: int| 0 <= i < j
                < self.scattered_pages().len() implies self.scattered_frames()[i]
                != self.scattered_frames()[j] by {
                if j >= n {
                    assert(self.scattered_frames()[j] == a0.demoted_frames(idx)[j - n]);
                    let kj = m - 1 - (j - n);
                    assert(a0.frame_ppns().contains(a0.frame_ppns()[kj]));
                    if i < n {
                        assert(a0.scattered_entry_ok(i, &pt0, &alloc0));
                        assert(self.scattered_frames()[i] == a0.scattered_frames()[i]);
                    } else {
                        assert(self.scattered_frames()[i] == a0.demoted_frames(idx)[i - n]);
                        let ki = m - 1 - (i - n);
                        assert(a0.frame_ppns()[ki] != a0.frame_ppns()[kj]);
                    }
                } else {
                    assert(self.scattered_frames()[i] == a0.scattered_frames()[i]);
                    assert(self.scattered_frames()[j] == a0.scattered_frames()[j]);
                }
            }
        }
    }

    /// The region is in order once a page mapped out of order is
    /// unmapped.
    proof fn lemma_unscattered(
        &self,
        a0: MapArea,
        pt0: PageTable,
        pt1: PageTable,
        alloc0: BitmapFrameAllocator,
        alloc1: BitmapFrameAllocator,
        vpn: VirtPageNum,
        i: int,
    )
        requires
            a0.attached(&pt0, &alloc0),
            a0.scattered_ok(&pt0, &alloc0),
            0 <= i < a0.scattered_pages().len(),
            a0.scattered_pages()[i] == vpn.0,
            self.start() == a0.start(),
            self.end() == a0.end(),
            self.kind() == a0.kind(),
            self.perm() == a0.perm(),
            self.first_va() == a0.first_va(),
            self.mapped() == a0.mapped(),
            self.frame_ppns() == a0.frame_ppns(),
            forall|k: int|
                0 <= k < self.frame_ppns().len() ==> self.frame_data(k) == a0.frame_data(k),
            self.scattered_pages() == a0.scattered_pages().remove(i),
            self.scattered_frames() == a0.scattered_frames().remove(i),
            pt1.wf(),
            pt1.ppns() == pt0.ppns(),
            forall|v: VirtPageNum|
                !same_path(v.0, vpn.0) ==> pt1.translate_spec(v) == pt0.translate_spec(v),
            alloc1.wf(),
            alloc1.start() == alloc0.start(),
            alloc1.end() == alloc0.end(),
            a0.kind() == MapType::Framed ==> forall|q: u64|
                alloc1.is_allocated(q) == (alloc0.is_allocated(q) && q != a0.scattered_frames()[i]),
            a0.kind() == MapType::Identical ==> forall|q: u64|
                alloc1.is_allocated(q) == alloc0.is_allocated(q),
        ensures
            self.attached(&pt1, &alloc1),
            self.scattered_ok(&pt1, &alloc1),
    {
        assert(a0.scattered_entry_ok(i, &pt0, &alloc0));
        let fi = a0.scattered_frames()[i];
        assert forall|k: int| 0 <= k < pt1.ppns().len() implies alloc1.is_allocated(
            #[trigger] pt1.ppns()[k],
        ) by {
            assert(alloc0.is_allocated(pt0.ppns()[k]));
            assert(pt0.owns(pt0.ppns()[k]));
        }
        assert forall|k: int| 0 <= k < self.frame_ppns().len() implies alloc1.is_allocated(
            #[trigger] self.frame_ppns()[k],
        ) && !pt1.owns(self.frame_ppns()[k]) by {
            assert(alloc0.is_allocated(a0.frame_ppns()[k]));
            assert(!pt0.owns(a0.frame_ppns()[k]));
            assert(a0.frame_ppns().contains(a0.frame_ppns()[k]));
        }
        assert forall|k: int| 0 <= k < self.mapped() implies {
            let t = #[trigger] pt1.translate_spec(self.page(k));
            &&& t is Some
            &&& t.unwrap().0.0 == self.backing(k)
            &&& t.unwrap().1.has(PTEFlags(self.perm().0 | 1))
        } by {
            let t = pt0.translate_spec(a0.page(k));
            assert(a0.range_ok());
            if same_path(a0.page(k).0, vpn.0) {
                lemma_canonical_paths(a0.page(k).0, vpn.0);
            }
            assert(self.backing(k) == a0.backing(k));
        }
        assert forall|j: int| 0 <= j
            < self.scattered_pages().len() implies #[trigger] self.scattered_entry_ok(
            j,
            &pt1,
            &alloc1,
        ) by {
            let j0 = if j < i {
                j
            } else {
                j + 1
            };
            assert(a0.scattered_entry_ok(j0, &pt0, &alloc0));
            let v = a0.scattered_pages()[j0];
            assert(self.scattered_pages()[j] == v);
            assert(self.scattered_frames()[j] == a0.scattered_frames()[j0]);
            if same_path(v, vpn.0) {
                lemma_canonical_paths(v, vpn.0);
            }
            assert(pt1.translate_spec(VirtPageNum(v)) == pt0.translate_spec(VirtPageNum(v)));
        }
        assert forall|j: int, l: int| 0 <= j < l
            < self.scattered_pages().len() implies self.scattered_pages()[j]
            != self.scattered_pages()[l] by {
            let j0 = if j < i {
                j
            } else {
                j + 1
            };
            let l0 = if l < i {
                l
            } else {
                l + 1
            };
            assert(self.scattered_pages()[j] == a0.scattered_pages()[j0]);
            assert(self.scattered_pages()[l] == a0.scattered_pages()[l0]);
        }
        if self.kind() == MapType::Framed {
            assert forall|j: int, l: int| 0 <= j < l
                < self.scattered_pages().len() implies self.scattered_frames()[j]
                != self.scattered_frames()[l] by {
                let j0 = if j < i {
                    j
                } else {
                    j + 1
                };
                let l0 = if l < i {
                    l
                } else {
                    l + 1
                };
                assert(self.scattered_frames()[j] == a0.scattered_frames()[j0]);
                assert(self.scattered_frames()[l] == a0.scattered_frames()[l0]);
            }
        }
    }

    /// Maps every page of the region that is not mapped yet, in order.
    ///
    /// Stops at the first page that cannot be mapped, and leaves the pages
    /// before it mapped: with `OutOfRange` if the range of the region cannot
    /// be mapped, with `AlreadyMapped` if that page translated already, and
    /// with `OutOfMemory` when no free frame is left.
    pub fn map(&mut self, page_table: &mut PageTable, alloc: &mut BitmapFrameAllocator) -> (r:
        Result<(), MapError>)
        requires
            old(self).attached(old(page_table), old(alloc)),
        ensures
            final(self).same_scattered(*old(self)),
            final(self).attached(final(page_table), final(alloc)),
            grew(
                *old(page_table),
                *final(page_table),
                *old(self),
                *final(self),
                *old(alloc),
                *final(alloc),
            ),
            final(self).start() == old(self).start(),
            final(self).end() == old(self).end(),
            final(self).kind() == old(self).kind(),
            final(self).perm() == old(self).perm(),
            final(self).first_va() == old(self).first_va(),
            old(self).mapped() <= final(self).mapped(),
            forall|v: VirtPageNum|
                old(page_table).translate_spec(v) is Some ==> final(page_table).translate_spec(v)
                    == old(page_table).translate_spec(v),
            forall|v: VirtPageNum|
                !old(self).touches(old(self).mapped(), final(self).mapped(), v)
                    ==> final(page_table).translate_spec(v) == old(page_table).translate_spec(v),
            forall|k: int|
                old(self).mapped() <= k < final(self).mapped() ==> old(page_table).translate_spec(
                    #[trigger] old(self).page(k),
                ) is None,
            forall|k: int|
                old(self).mapped() <= k < final(self).mapped()
                    ==> (#[trigger] final(page_table).translate_spec(old(self).page(k))) is Some
                    && final(page_table).translate_spec(
                    old(self).page(k),
                ).unwrap().1 == PTEFlags(old(self).perm().0 | 1),
            forall|v: VirtPageNum|
                final(page_table).path_blocked(v) == old(page_table).path_blocked(v),
            final(page_table).ppns().len() - old(page_table).ppns().len()
                <= 2 * (final(self).mapped() - old(self).mapped()) + (if r is Err {
                2int
            } else {
                0int
            }),
            final(page_table).ppns().len() - old(page_table).ppns().len() <= tables_for(
                old(self).start() + old(self).mapped(),
                old(self).start() + final(self).mapped() + (if r is Err {
                    1int
                } else {
                    0int
                }),
            ),
            match r {
                Ok(()) => final(self).fully_mapped(),
                Err(e) => {
                    &&& !final(self).fully_mapped()
                    &&& e == MapError::OutOfRange || e == MapError::AlreadyMapped || e
                        == MapError::OutOfMemory
                    &&& e == MapError::OutOfRange <==> !old(self).range_ok()
                    &&& e == MapError::AlreadyMapped ==> old(page_table).translate_spec(
                        old(self).page(final(self).mapped()),
                    ) is Some
                    &&& e == MapError::OutOfMemory ==> final(alloc).free_count() == 0
                    &&& e == MapError::OutOfMemory ==> old(alloc).free_count() < frames_for(
                        old(self).kind(),
                        old(self).start() + old(self).mapped(),
                        old(self).start() + final(self).mapped() + 1,
                    )
                },
            },
    {
        let count = if self.vpn_range.start.0 <= self.vpn_range.end.0 {
            self.vpn_range.end.0 - self.vpn_range.start.0
        } else {
            0
        };
        proof {
            self.lemma_same(*page_table, *alloc);
        }
        while self.mapped < count
            invariant
                count == old(self).page_count(),
                self.map_progress(*old(self), *old(page_table), *page_table, *old(alloc), *alloc),
            decreases count - self.mapped,
        {
            match self.map_step(
                page_table,
                alloc,
                Ghost(*old(self)),
                Ghost(*old(page_table)),
                Ghost(*old(alloc)),
            ) {
                Ok(()) => {},
                Err(e) => {
                    return Err(e);
                },
            }
        }
        Ok(())
    }

    /// How far `map` has come from the region `a0`, the page table `pt0`
    /// and the allocator `alloc0`: the pages mapped since are those that
    /// follow in order, they did not translate before and have exactly
    /// the flags of the region, nothing else translates otherwise, and
    /// the tables made since are no more than these pages need.
    pub open spec fn map_progress(
        &self,
        a0: MapArea,
        pt0: PageTable,
        pt: PageTable,
        alloc0: BitmapFrameAllocator,
        alloc: BitmapFrameAllocator,
    ) -> bool {
        &&& self.map_reached(a0, pt0, pt, alloc0, alloc)
        &&& pt.ppns().len() - pt0.ppns().len() <= 2 * (self.mapped() - a0.mapped())
        &&& pt.ppns().len() - pt0.ppns().len() <= tables_for(
            a0.start() + a0.mapped(),
            a0.start() + self.mapped(),
        )
    }

    /// What `map` keeps whether it goes on or stops.
    pub open spec fn map_reached(
        &self,
        a0: MapArea,
        pt0: PageTable,
        pt: PageTable,
        alloc0: BitmapFrameAllocator,
        alloc: BitmapFrameAllocator,
    ) -> bool {
        &&& self.same_scattered(a0)
        &&& self.attached(&pt, &alloc)
        &&& a0.inv()
        &&& grew(pt0, pt, a0, *self, alloc0, alloc)
        &&& self.start() == a0.start()
        &&& self.end() == a0.end()
        &&& self.kind() == a0.kind()
        &&& self.perm() == a0.perm()
        &&& self.first_va() == a0.first_va()
        &&& a0.mapped() <= self.mapped() <= a0.page_count()
        &&& forall|v: VirtPageNum|
            pt0.translate_spec(v) is Some ==> pt.translate_spec(v) == pt0.translate_spec(v)
        &&& forall|v: VirtPageNum|
            !a0.touches(a0.mapped(), self.mapped(), v) ==> pt.translate_spec(v)
                == pt0.translate_spec(v)
        &&& forall|k: int|
            a0.mapped() <= k < self.mapped() ==> pt0.translate_spec(#[trigger] a0.page(k)) is None
        &&& forall|k: int|
            a0.mapped() <= k < self.mapped() ==> (#[trigger] pt.translate_spec(a0.page(k)))
                is Some && pt.translate_spec(a0.page(k)).unwrap().1 == PTEFlags(a0.perm().0 | 1)
        &&& self.mapped() > a0.mapped() ==> a0.range_ok()
        &&& forall|v: VirtPageNum| pt.path_blocked(v) == pt0.path_blocked(v)
    }

    /// Why `map` stopped at the page that follows those it mapped.
    pub open spec fn map_stopped(
        &self,
        a0: MapArea,
        pt0: PageTable,
        pt: PageTable,
        alloc0: BitmapFrameAllocator,
        alloc: BitmapFrameAllocator,
        e: MapError,
    ) -> bool {
        &&& self.map_reached(a0, pt0, pt, alloc0, alloc)
        &&& self.mapped() < a0.page_count()
        &&& pt.ppns().len() - pt0.ppns().len() <= 2 * (self.mapped() - a0.mapped()) + 2
        &&& pt.ppns().len() - pt0.ppns().len() <= tables_for(
            a0.start() + a0.mapped(),
            a0.start() + self.mapped() + 1,
        )
        &&& e == MapError::OutOfRange || e == MapError::AlreadyMapped || e
            == MapError::OutOfMemory
        &&& e == MapError::OutOfRange <==> !a0.range_ok()
        &&& e == MapError::AlreadyMapped ==> pt0.translate_spec(a0.page(self.mapped())) is Some
        &&& e == MapError::OutOfMemory ==> alloc.free_count() == 0 && alloc0.free_count()
            < frames_for(a0.kind(), a0.start() + a0.mapped(), a0.start() + self.mapped() + 1)
    }

    /// Maps the page that follows those that `map` has mapped.
    #[verifier::rlimit(100)]
    fn map_step(
        &mut self,
        page_table: &mut PageTable,
        alloc: &mut BitmapFrameAllocator,
        Ghost(a0): Ghost<MapArea>,
        Ghost(pt0): Ghost<PageTable>,
        Ghost(alloc0): Ghost<BitmapFrameAllocator>,
    ) -> (r: Result<(), MapError>)
        requires
            old(self).map_progress(a0, pt0, *old(page_table), alloc0, *old(alloc)),
            old(self).mapped() < a0.page_count(),
        ensures
            match r {
                Ok(()) => final(self).map_progress(
                    a0,
                    pt0,
                    *final(page_table),
                    alloc0,
                    *final(alloc),
                ) && final(self).mapped() == old(self).mapped() + 1,
                Err(e) => final(self).map_stopped(
                    a0,
                    pt0,
                    *final(page_table),
                    alloc0,
                    *final(alloc),
                    e,
                ),
            },
    {
        let vpn = VirtPageNum(self.vpn_range.start.0 + self.mapped);
        let ghost a1 = *self;
        let ghost pt1 = *page_table;
        let ghost alloc1 = *alloc;
        proof {
            if a1.mapped() > a0.mapped() {
                assert(a1.page(a1.mapped() - 1) == VirtPageNum((vpn.0 - 1) as u64));
            }
            lemma_table_step(pt1, (a0.start() + a0.mapped()) as u64, vpn.0);
        }
        let r = self.map_next(page_table, vpn, alloc);
        match r {
            Ok(()) => {
                proof {
                    lemma_grew_twice(
                        pt0,
                        pt1,
                        *page_table,
                        a0,
                        a1,
                        *self,
                        alloc0,
                        alloc1,
                        *alloc,
                    );
                    a0.lemma_map_step(a1, *self, pt0, pt1, *page_table, vpn);
                }
            },
            Err(e) => {
                proof {
                    if e == MapError::OutOfMemory {
                        lemma_grew(pt0, pt1, a0, a1, alloc0, alloc1);
                    }
                    lemma_grew_twice(
                        pt0,
                        pt1,
                        *page_table,
                        a0,
                        a1,
                        *self,
                        alloc0,
                        alloc1,
                        *alloc,
                    );
                    assert(a0.page(a1.mapped()) == vpn);
                    if e == MapError::AlreadyMapped {
                        if pt0.translate_spec(vpn) is None {
                            if a0.touches(a0.mapped(), a1.mapped(), vpn) {
                                let k = choose|k: int|
                                    a0.mapped() <= k < a1.mapped() && same_path(
                                        vpn.0,
                                        #[trigger] a0.page(k).0,
                                    );
                                a0.lemma_pages(a1.mapped(), k);
                            }
                            assert(pt1.translate_spec(vpn) == pt0.translate_spec(vpn));
                        }
                    }
                }
            },
        }
        r
    }

    /// One step of `map`, for the page table.
    proof fn lemma_map_step(
        &self,
        a1: Self,
        a2: Self,
        pt0: PageTable,
        pt1: PageTable,
        pt2: PageTable,
        vpn: VirtPageNum,
    )
        requires
            self.mapped() <= a1.mapped(),
            a2.mapped() == a1.mapped() + 1,
            vpn.0 == self.start() + a1.mapped(),
            vpn.0 < self.end(),
            pt1.translate_spec(vpn) is None,
            forall|v: VirtPageNum|
                pt0.translate_spec(v) is Some ==> pt1.translate_spec(v) == pt0.translate_spec(v),
            forall|v: VirtPageNum|
                !self.touches(self.mapped(), a1.mapped(), v) ==> pt1.translate_spec(v)
                    == pt0.translate_spec(v),
            forall|k: int|
                self.mapped() <= k < a1.mapped() ==> pt0.translate_spec(#[trigger] self.page(k))
                    is None,
            forall|v: VirtPageNum|
                !same_path(v.0, vpn.0) ==> pt2.translate_spec(v) == pt1.translate_spec(v),
            forall|v: VirtPageNum|
                pt1.translate_spec(v) is Some ==> pt2.translate_spec(v) == pt1.translate_spec(v),
            forall|k: int|
                self.mapped() <= k < a1.mapped() ==> (#[trigger] pt1.translate_spec(
                    self.page(k),
                )) is Some && pt1.translate_spec(self.page(k)).unwrap().1 == PTEFlags(
                    self.perm().0 | 1,
                ),
            pt2.translate_spec(vpn) is Some,
            pt2.translate_spec(vpn).unwrap().1 == PTEFlags(self.perm().0 | 1),
        ensures
            forall|k: int|
                self.mapped() <= k < a2.mapped() ==> (#[trigger] pt2.translate_spec(
                    self.page(k),
                )) is Some && pt2.translate_spec(self.page(k)).unwrap().1 == PTEFlags(
                    self.perm().0 | 1,
                ),
            forall|v: VirtPageNum|
                pt0.translate_spec(v) is Some ==> pt2.translate_spec(v) == pt0.translate_spec(v),
            forall|v: VirtPageNum|
                !self.touches(self.mapped(), a2.mapped(), v) ==> pt2.translate_spec(v)
                    == pt0.translate_spec(v),
            forall|k: int|
                self.mapped() <= k < a2.mapped() ==> pt0.translate_spec(#[trigger] self.page(k))
                    is None,
    {
        let m = a1.mapped();
        assert(self.page(m) == vpn);
        assert forall|k: int| self.mapped() <= k < a2.mapped() implies (
        #[trigger] pt2.translate_spec(self.page(k))) is Some && pt2.translate_spec(
            self.page(k),
        ).unwrap().1 == PTEFlags(self.perm().0 | 1) by {
            if k < m {
                let t = pt1.translate_spec(self.page(k));
                assert(t is Some);
            }
        }
        assert forall|v: VirtPageNum|
            !self.touches(self.mapped(), a2.mapped(), v) implies pt2.translate_spec(v)
            == pt0.translate_spec(v) by {
            assert(!same_path(v.0, self.page(m).0));
            if self.touches(self.mapped(), a1.mapped(), v) {
                let k = choose|k: int|
                    self.mapped() <= k < a1.mapped() && same_path(v.0, #[trigger] self.page(k).0);
                assert(self.mapped() <= k < a2.mapped() && same_path(v.0, self.page(k).0));
            }
        }
        assert forall|k: int| self.mapped() <= k < a2.mapped() implies pt0.translate_spec(
            #[trigger] self.page(k),
        ) is None by {
            if k == m {
                if pt0.translate_spec(vpn) is Some {
                    assert(pt1.translate_spec(vpn) is Some);
                }
            }
        }
    }

    /// Unmaps every page of the region that is mapped in order, the last
    /// first, and gives the frames of a framed region back. A page that
    /// was mapped out of order stays mapped until `unmap_one` unmaps it.
    ///
    /// Stops with `LeafInPath` at a page that a higher entry of the page
    /// table maps, and leaves that page and those before it mapped.
    pub fn unmap(&mut self, page_table: &mut PageTable, alloc: &mut BitmapFrameAllocator) -> (r:
        Result<(), MapError>)
        requires
            old(self).attached(old(page_table), old(alloc)),
        ensures
            final(self).same_scattered(*old(self)),
            final(self).attached(final(page_table), final(alloc)),
            final(alloc).start() == old(alloc).start(),
            final(alloc).end() == old(alloc).end(),
            final(page_table).ppns() == old(page_table).ppns(),
            final(self).start() == old(self).start(),
            final(self).end() == old(self).end(),
            final(self).kind() == old(self).kind(),
            final(self).perm() == old(self).perm(),
            final(self).first_va() == old(self).first_va(),
            final(self).mapped() <= old(self).mapped(),
            final(self).frame_ppns() == old(self).frame_ppns().take(
                final(self).frame_ppns().len() as int,
            ),
            final(self).frame_ppns().len() <= old(self).frame_ppns().len(),
            forall|i: int|
                0 <= i < final(self).frame_ppns().len() ==> #[trigger] final(self).frame_data(i)
                    == old(self).frame_data(i),
            forall|v: VirtPageNum|
                !old(self).touches(final(self).mapped(), old(self).mapped(), v)
                    ==> final(page_table).translate_spec(v) == old(page_table).translate_spec(v),
            forall|k: int|
                final(self).mapped() <= k < old(self).mapped()
                    ==> final(page_table).translate_spec(#[trigger] old(self).page(k)) is None,
            forall|v: VirtPageNum|
                final(page_table).path_blocked(v) == old(page_table).path_blocked(v),
            forall|q: u64|
                final(alloc).is_allocated(q) == (old(alloc).is_allocated(q)
                    && !old(self).frame_ppns().skip(final(self).frame_ppns().len() as int).contains(q)),
            final(alloc).frames_in_use() + old(self).frame_ppns().len()
                == old(alloc).frames_in_use() + final(self).frame_ppns().len(),
            match r {
                Ok(()) => final(self).mapped() == 0 && final(self).frame_ppns().len() == 0,
                Err(e) => {
                    &&& e == MapError::LeafInPath
                    &&& final(self).mapped() > 0
                    &&& old(page_table).path_blocked(old(self).page(final(self).mapped() - 1))
                },
            },
    {
        proof {
            assert(self.frame_ppns().take(self.frame_ppns().len() as int) =~= self.frame_ppns());
            assert(self.frame_ppns().skip(self.frame_ppns().len() as int) =~= Seq::<u64>::empty());
        }
        while self.mapped > 0
            invariant
                self.same_scattered(*old(self)),
                self.attached(page_table, alloc),
                old(self).inv(),
                alloc.start() == old(alloc).start(),
                alloc.end() == old(alloc).end(),
                page_table.ppns() == old(page_table).ppns(),
                self.start() == old(self).start(),
                self.end() == old(self).end(),
                self.kind() == old(self).kind(),
                self.perm() == old(self).perm(),
                self.first_va() == old(self).first_va(),
                self.mapped() <= old(self).mapped(),
                self.frame_ppns().len() <= old(self).frame_ppns().len(),
                self.frame_ppns() == old(self).frame_ppns().take(self.frame_ppns().len() as int),
                forall|i: int|
                    0 <= i < self.frame_ppns().len()
                        ==> #[trigger] self.frame_data(i) == old(self).frame_data(i),
                forall|v: VirtPageNum|
                    !old(self).touches(self.mapped(), old(self).mapped(), v)
                        ==> page_table.translate_spec(v) == old(page_table).translate_spec(v),
                forall|k: int|
                    self.mapped() <= k < old(self).mapped() ==> page_table.translate_spec(
                        #[trigger] old(self).page(k),
                    ) is None,
                forall|v: VirtPageNum|
                    page_table.path_blocked(v) == old(page_table).path_blocked(v),
                forall|q: u64|
                    alloc.is_allocated(q) == (old(alloc).is_allocated(q)
                        && !old(self).frame_ppns().skip(self.frame_ppns().len() as int).contains(q)),
                alloc.frames_in_use() + old(self).frame_ppns().len() == old(alloc).frames_in_use()
                    + self.frame_ppns().len(),
            decreases self.mapped,
        {
            let vpn = VirtPageNum(self.vpn_range.start.0 + (self.mapped - 1));
            let ghost a1 = *self;
            let ghost pt1 = *page_table;
            let ghost alloc1 = *alloc;
            match self.unmap_last(page_table, vpn, alloc) {
                Ok(()) => {
                    proof {
                        old(self).lemma_unmap_step(
                            a1,
                            *self,
                            *old(page_table),
                            pt1,
                            *page_table,
                            vpn,
                        );
                        old(self).lemma_unmap_frames(a1, *self, *old(alloc), alloc1, *alloc);
                    }
                },
                Err(e) => {
                    proof {
                        assert(old(self).page(a1.mapped() - 1) == vpn);
                    }
                    return Err(e);
                },
            }
        }
        Ok(())
    }

    /// One step of `unmap`, for the page table.
    proof fn lemma_unmap_step(
        &self,
        a1: Self,
        a2: Self,
        pt0: PageTable,
        pt1: PageTable,
        pt2: PageTable,
        vpn: VirtPageNum,
    )
        requires
            self.inv(),
            0 < a1.mapped() <= self.mapped(),
            a2.mapped() == a1.mapped() - 1,
            vpn.0 == self.start() + a1.mapped() - 1,
            forall|v: VirtPageNum|
                !self.touches(a1.mapped(), self.mapped(), v) ==> pt1.translate_spec(v)
                    == pt0.translate_spec(v),
            forall|k: int|
                a1.mapped() <= k < self.mapped() ==> pt1.translate_spec(#[trigger] self.page(k))
                    is None,
            forall|v: VirtPageNum|
                !same_path(v.0, vpn.0) ==> pt2.translate_spec(v) == pt1.translate_spec(v),
            pt2.translate_spec(vpn) is None,
        ensures
            forall|v: VirtPageNum|
                !self.touches(a2.mapped(), self.mapped(), v) ==> pt2.translate_spec(v)
                    == pt0.translate_spec(v),
            forall|k: int|
                a2.mapped() <= k < self.mapped() ==> pt2.translate_spec(#[trigger] self.page(k))
                    is None,
    {
        let m = a2.mapped();
        assert(self.page(m) == vpn);
        assert forall|v: VirtPageNum|
            !self.touches(a2.mapped(), self.mapped(), v) implies pt2.translate_spec(v)
            == pt0.translate_spec(v) by {
            assert(!same_path(v.0, self.page(m).0));
            if self.touches(a1.mapped(), self.mapped(), v) {
                let k = choose|k: int|
                    a1.mapped() <= k < self.mapped() && same_path(v.0, #[trigger] self.page(k).0);
                assert(m <= k < self.mapped() && same_path(v.0, self.page(k).0));
            }
        }
        assert forall|k: int| a2.mapped() <= k < self.mapped() implies pt2.translate_spec(
            #[trigger] self.page(k),
        ) is None by {
            if k > m {
                self.lemma_pages(k, m);
                assert(pt1.translate_spec(self.page(k)) is None);
            }
        }
    }

    /// One step of `unmap`, for the frames.
    proof fn lemma_unmap_frames(
        &self,
        a1: Self,
        a2: Self,
        alloc0: BitmapFrameAllocator,
        alloc1: BitmapFrameAllocator,
        alloc2: BitmapFrameAllocator,
    )
        requires
            self.inv(),
            a1.frame_ppns().len() <= self.frame_ppns().len(),
            a1.frame_ppns() == self.frame_ppns().take(a1.frame_ppns().len() as int),
            forall|q: u64|
                alloc1.is_allocated(q) == (alloc0.is_allocated(q) && !self.frame_ppns().skip(
                    a1.frame_ppns().len() as int,
                ).contains(q)),
            a1.kind() == MapType::Framed ==> a1.frame_ppns().len() > 0 && a2.frame_ppns()
                == a1.frame_ppns().drop_last() && (forall|q: u64|
                alloc2.is_allocated(q) == (alloc1.is_allocated(q) && q != a1.frame_ppns().last())),
            a1.kind() == MapType::Identical ==> a2.frame_ppns() == a1.frame_ppns() && (forall|
                q: u64,
            |
                alloc2.is_allocated(q) == alloc1.is_allocated(q)),
        ensures
            a2.frame_ppns() == self.frame_ppns().take(a2.frame_ppns().len() as int),
            a2.frame_ppns().len() <= self.frame_ppns().len(),
            forall|q: u64|
                alloc2.is_allocated(q) == (alloc0.is_allocated(q) && !self.frame_ppns().skip(
                    a2.frame_ppns().len() as int,
                ).contains(q)),
    {
        let n1 = a1.frame_ppns().len() as int;
        let n2 = a2.frame_ppns().len() as int;
        if a1.kind() == MapType::Framed {
            assert(a2.frame_ppns() =~= self.frame_ppns().take(n2));
            assert(a1.frame_ppns().last() == self.frame_ppns()[n2]);
            let s1 = self.frame_ppns().skip(n1);
            let s2 = self.frame_ppns().skip(n2);
            assert forall|q: u64|
                alloc2.is_allocated(q) == (alloc0.is_allocated(q) && !s2.contains(q)) by {
                if s2.contains(q) {
                    let i = choose|i: int| 0 <= i < s2.len() && s2[i] == q;
                    if i > 0 {
                        assert(s1[i - 1] == q);
                    }
                }
                if s1.contains(q) {
                    let i = choose|i: int| 0 <= i < s1.len() && s1[i] == q;
                    assert(s2[i + 1] == q);
                }
                if q == self.frame_ppns()[n2] {
                    assert(s2[0] == q);
                }
            }
        }
    }

    /// Gives every frame of the region back without touching a page
    /// table: for a region whose address space goes away. The frames of
    /// the pages mapped out of order go back too.
    pub fn release(self, alloc: &mut BitmapFrameAllocator)
        requires
            self.inv(),
            old(alloc).wf(),
            self.backed_by(old(alloc)),
        ensures
            final(alloc).wf(),
            final(alloc).start() == old(alloc).start(),
            final(alloc).end() == old(alloc).end(),
            forall|q: u64|
                final(alloc).is_allocated(q) == (old(alloc).is_allocated(q)
                    && !self.frame_ppns().contains(q) && !(self.kind() == MapType::Framed
                    && self.scattered_frames().contains(q))),
            self.scattered_pages().len() == 0 ==> final(alloc).frames_in_use()
                + self.frame_ppns().len() == old(alloc).frames_in_use(),
    {
        let mut rest = self.scattered;
        let framed = match self.map_type {
            MapType::Framed => true,
            MapType::Identical => false,
        };
        let mut frames = self.data_frames;
        let ghost all = self.frame_ppns();
        let ghost extra = self.scattered_frames();
        proof {
            assert(extra.len() == rest@.len());
            assert(self.scattered_pages().len() == rest@.len());
        }
        while frames.len() > 0
            invariant
                alloc.wf(),
                alloc.start() == old(alloc).start(),
                alloc.end() == old(alloc).end(),
                all.no_duplicates(),
                frames@.len() <= all.len(),
                forall|i: int| 0 <= i < frames@.len() ==> frames@[i].ppn.0 == all[i],
                forall|i: int| 0 <= i < all.len() ==> old(alloc).is_allocated(all[i]),
                forall|q: u64|
                    alloc.is_allocated(q) == (old(alloc).is_allocated(q) && !(exists|i: int|
                        frames@.len() <= i < all.len() && all[i] == q)),
                alloc.frames_in_use() + all.len() == old(alloc).frames_in_use() + frames@.len(),
            decreases frames@.len(),
        {
            let ghost n = frames@.len() - 1;
            let f = frames.pop().unwrap();
            proof {
                assert(f.ppn.0 == all[n]);
                assert(alloc.is_allocated(all[n])) by {
                    if exists|i: int| n + 1 <= i < all.len() && all[i] == all[n] {
                        let i = choose|i: int| n + 1 <= i < all.len() && all[i] == all[n];
                        assert(all[i] != all[n]);
                    }
                }
            }
            alloc.dealloc(f.ppn);
            proof {
                assert forall|q: u64|
                    alloc.is_allocated(q) == (old(alloc).is_allocated(q) && !(exists|i: int|
                        frames@.len() <= i < all.len() && all[i] == q)) by {
                    if q == all[n] {
                    } else if exists|i: int| n <= i < all.len() && all[i] == q {
                        let i = choose|i: int| n <= i < all.len() && all[i] == q;
                        assert(n + 1 <= i);
                    }
                }
            }
        }
        proof {
            assert forall|q: u64|
                alloc.is_allocated(q) == (old(alloc).is_allocated(q) && !all.contains(q)) by {
                if all.contains(q) {
                    let i = choose|i: int| 0 <= i < all.len() && all[i] == q;
                    assert(0 <= i < all.len() && all[i] == q);
                }
            }
        }
        let ghost dense = *alloc;
        while rest.len() > 0
            invariant
                alloc.wf(),
                alloc.start() == old(alloc).start(),
                alloc.end() == old(alloc).end(),
                rest@.len() <= extra.len(),
                forall|i: int| 0 <= i < rest@.len() ==> rest@[i].ppn == extra[i],
                extra.len() == 0 ==> *alloc == dense,
                forall|q: u64|
                    dense.is_allocated(q) == (old(alloc).is_allocated(q) && !all.contains(q)),
                dense.frames_in_use() + all.len() == old(alloc).frames_in_use(),
                forall|q: u64|
                    #[trigger] alloc.is_allocated(q) == (dense.is_allocated(q) && !(framed
                        && among(extra, rest@.len() as int, q))),
            decreases rest@.len(),
        {
            let ghost n = rest@.len() - 1;
            let ghost prev = *alloc;
            proof {
                assert forall|q: u64|
                    #[trigger] prev.is_allocated(q) == (dense.is_allocated(q) && !(framed
                        && among(extra, n + 1, q))) by {}
            }
            let e = rest.pop().unwrap();
            if framed {
                alloc.dealloc(PhysPageNum(e.ppn));
            }
            proof {
                assert(e.ppn == extra[n]);
                assert forall|q: u64|
                    #[trigger] alloc.is_allocated(q) == (dense.is_allocated(q) && !(framed
                        && among(extra, n, q))) by {
                    lemma_among(extra, n, q);
                    assert(prev.is_allocated(q) == (dense.is_allocated(q) && !(framed && among(
                        extra,
                        n + 1,
                        q,
                    ))));
                }
            }
        }
        proof {
            assert forall|q: u64|
                alloc.is_allocated(q) == (old(alloc).is_allocated(q) && !all.contains(q) && !(
                framed && extra.contains(q))) by {
                lemma_among_all(extra, q);
                assert(alloc.is_allocated(q) == (dense.is_allocated(q) && !(framed && among(
                    extra,
                    0,
                    q,
                ))));
            }
        }
    }

    /// Writes `data` into a framed region, beginning at the address that
    /// the region was made for.
    ///
    /// Fails with `OutOfRange`, and writes nothing, if the region is not
    /// framed or `data` does not fit between that address and the end of
    /// the mapped pages.
    pub fn copy_data(&mut self, data: &[u8]) -> (r: Result<(), MapError>)
        requires
            old(self).inv(),
        ensures
            final(self).same_scattered(*old(self)),
            final(self).inv(),
            final(self).start() == old(self).start(),
            final(self).end() == old(self).end(),
            final(self).kind() == old(self).kind(),
            final(self).perm() == old(self).perm(),
            final(self).first_va() == old(self).first_va(),
            final(self).mapped() == old(self).mapped(),
            final(self).frame_ppns() == old(self).frame_ppns(),
            match r {
                Ok(()) => {
                    &&& old(self).kind() == MapType::Framed
                    &&& old(self).first_va() % 4096 + data@.len() <= old(self).mapped() * 4096
                    &&& forall|i: int|
                        0 <= i < old(self).mapped() * 4096 ==> #[trigger] final(self).byte(i) == (
                        if old(self).first_va() % 4096 <= i < old(self).first_va() % 4096
                            + data@.len() {
                            data@[i - old(self).first_va() % 4096]
                        } else {
                            old(self).byte(i)
                        })
                },
                Err(e) => {
                    &&& e == MapError::OutOfRange
                    &&& !(old(self).kind() == MapType::Framed && old(self).first_va() % 4096
                        + data@.len() <= old(self).mapped() * 4096)
                    &&& forall|k: int|
                        0 <= k < old(self).frame_ppns().len()
                            ==> final(self).frame_data(k) == old(self).frame_data(k)
                },
            },
    {
        let off = (self.start_va % 4096) as usize;
        let n = data.len();
        let frames = self.data_frames.len();
        if self.map_type != MapType::Framed {
            return Err(MapError::OutOfRange);
        }
        if (off as u128) + (n as u128) > (frames as u128) * 4096 {
            return Err(MapError::OutOfRange);
        }
        let mut i: usize = 0;
        let mut k: usize = 0;
        let mut o: usize = off;
        while i < n
            invariant
                self.same_scattered(*old(self)),
                i <= n,
                n == data@.len(),
                off + n <= old(self).mapped() * 4096,
                off < 4096,
                o < 4096,
                k * 4096 + o == off + i,
                self.inv(),
                self.start() == old(self).start(),
                self.end() == old(self).end(),
                self.kind() == old(self).kind(),
                self.perm() == old(self).perm(),
                self.first_va() == old(self).first_va(),
                self.mapped() == old(self).mapped(),
                self.frame_ppns() == old(self).frame_ppns(),
                self.kind() == MapType::Framed,
                forall|j: int|
                    0 <= j < old(self).mapped() * 4096 ==> #[trigger] self.byte(j) == (if off <= j
                        < off + i {
                        data@[j - off]
                    } else {
                        old(self).byte(j)
                    }),
            decreases n - i,
        {
            let ghost prev = *self;
            proof {
                assert(k < self.mapped());
                assert(self.frame_data(k as int).len() == FRAME_BYTES);
            }
            self.data_frames[k].data[o] = data[i];
            proof {
                let pos = off + i;
                assert(self.frame_ppns() =~= prev.frame_ppns());
                assert forall|t: int| 0 <= t < self.frame_ppns().len() implies (
                #[trigger] self.frame_data(t)).len() == FRAME_BYTES by {
                    assert(prev.frame_data(t).len() == FRAME_BYTES);
                }
                assert forall|j: int| 0 <= j < old(self).mapped() * 4096 implies #[trigger] self.byte(
                    j,
                ) == (if off <= j < off + i + 1 {
                    data@[j - off]
                } else {
                    old(self).byte(j)
                }) by {
                    assert(prev.byte(j) == (if off <= j < off + i {
                        data@[j - off]
                    } else {
                        old(self).byte(j)
                    }));
                    if j != pos {
                        if j / 4096 == k as int {
                            assert(j % 4096 != o as int);
                        }
                        assert(self.byte(j) == prev.byte(j));
                    } else {
                        assert(j / 4096 == k as int && j % 4096 == o as int);
                    }
                }
            }
            i += 1;
            o += 1;
            if o == 4096 {
                o = 0;
                k += 1;
            }
        }
        Ok(())
    }

    /// Two regions that differ at most in the bytes that their frames hold.
    pub open spec fn same_shape(&self, other: MapArea) -> bool {
        &&& self.start() == other.start()
        &&& self.end() == other.end()
        &&& self.kind() == other.kind()
        &&& self.perm() == other.perm()
        &&& self.first_va() == other.first_va()
        &&& self.mapped() == other.mapped()
        &&& self.frame_ppns() == other.frame_ppns()
        &&& self.inv() == other.inv()
        &&& self.same_scattered(other)
    }

    /// The byte at offset `off` of mapped page `k` of a framed region.
    pub fn get_byte(&self, k: u64, off: u64) -> (r: u8)
        requires
            self.inv(),
            self.kind() == MapType::Framed,
            k < self.mapped(),
            off < 4096,
        ensures
            r == self.byte(k * 4096 + off),
    {
        proof {
            assert(self.frame_data(k as int).len() == FRAME_BYTES);
            assert((k * 4096 + off) / 4096 == k && (k * 4096 + off) % 4096 == off);
        }
        self.data_frames[k as usize].data[off as usize]
    }

    /// Writes `value` at offset `off` of mapped page `k` of a framed region.
    pub fn set_byte(&mut self, k: u64, off: u64, value: u8)
        requires
            old(self).inv(),
            old(self).kind() == MapType::Framed,
            k < old(self).mapped(),
            off < 4096,
        ensures
            final(self).same_scattered(*old(self)),
            final(self).inv(),
            final(self).same_shape(*old(self)),
            forall|b: int|
                0 <= b < old(self).mapped() * 4096 ==> #[trigger] final(self).byte(b) == (if b == k
                    * 4096 + off {
                    value
                } else {
                    old(self).byte(b)
                }),
    {
        proof {
            assert(self.frame_data(k as int).len() == FRAME_BYTES);
        }
        self.data_frames[k as usize].data[off as usize] = value;
        proof {
            assert(self.frame_ppns() =~= old(self).frame_ppns());
            assert forall|t: int| 0 <= t < self.frame_ppns().len() implies (
            #[trigger] self.frame_data(t)).len() == FRAME_BYTES by {
                assert(old(self).frame_data(t).len() == FRAME_BYTES);
            }
            assert forall|b: int| 0 <= b < old(self).mapped() * 4096 implies #[trigger] self.byte(b)
                == (if b == k * 4096 + off {
                value
            } else {
                old(self).byte(b)
            }) by {
                if b != k * 4096 + off {
                    if b / 4096 == k as int {
                        assert(b % 4096 != off as int);
                    }
                } else {
                    assert(b / 4096 == k as int && b % 4096 == off as int);
                }
            }
        }
    }

    /// The pages of a region that can be mapped are canonical, and do not
    /// share a path through the page table.
    pub proof fn lemma_pages(&self, j: int, k: int)
        requires
            self.range_ok(),
            0 <= j < self.page_count(),
            0 <= k < self.page_count(),
        ensures
            canonical_vpn(self.page(j).0),
            same_path(self.page(j).0, self.page(k).0) ==> j == k,
    {
        if same_path(self.page(j).0, self.page(k).0) {
            lemma_canonical_paths(self.page(j).0, self.page(k).0);
        }
    }
}

/// The page number of the trampoline: the last page of the address space.
pub const TRAMPOLINE_VPN: u64 = 0xF_FFFF_FFFF_FFFF;

/// The page number of the trap frame: the page below the trampoline.
pub const TRAP_CONTEXT_VPN: u64 = 0xF_FFFF_FFFF_FFFE;

/// Number of frames that the regions of `s` own together.
pub open spec fn frames_in(s: Seq<MapArea>) -> nat
    decreases s.len(),
{
    if s.len() == 0 {
        0
    } else {
        frames_in(s.drop_last()) + s.last().frame_ppns().len()
    }
}

/// Taking a region out takes its frames out of the count.
pub proof fn lemma_frames_in_remove(s: Seq<MapArea>, i: int)
    requires
        0 <= i < s.len(),
    ensures
        frames_in(s.remove(i)) + s[i].frame_ppns().len() == frames_in(s),
    decreases s.len(),
{
    if i == s.len() - 1 {
        assert(s.remove(i) =~= s.drop_last());
    } else {
        assert(s.remove(i).drop_last() =~= s.drop_last().remove(i));
        assert(s.remove(i).last() == s.last());
        lemma_frames_in_remove(s.drop_last(), i);
    }
}

/// Regions of the same shape own the same number of frames.
pub proof fn lemma_frames_in_shape(s: Seq<MapArea>, t: Seq<MapArea>)
    requires
        s.len() == t.len(),
        forall|i: int| 0 <= i < s.len() ==> (#[trigger] s[i]).same_shape(t[i]),
    ensures
        frames_in(s) == frames_in(t),
    decreases s.len(),
{
    if s.len() > 0 {
        assert(s.last().same_shape(t.last()));
        assert forall|i: int| 0 <= i < s.drop_last().len() implies (
        #[trigger] s.drop_last()[i]).same_shape(t.drop_last()[i]) by {
            assert(s[i].same_shape(t[i]));
        }
        lemma_frames_in_shape(s.drop_last(), t.drop_last());
    }
}

/// Whether `q` stands in `s` at place `from` or behind it.
pub open spec fn among(s: Seq<u64>, from: int, q: u64) -> bool {
    exists|i: int| from <= i < s.len() && s[i] == q
}

/// `q` stands at place `n` or behind it if it stands at `n` or behind
/// the place after.
pub proof fn lemma_among(s: Seq<u64>, n: int, q: u64)
    requires
        0 <= n < s.len(),
    ensures
        among(s, n, q) == (s[n] == q || among(s, n + 1, q)),
{
    if among(s, n, q) {
        let i = choose|i: int| n <= i < s.len() && s[i] == q;
        if i != n {
            assert(n + 1 <= i < s.len() && s[i] == q);
        }
    }
    if among(s, n + 1, q) {
        let i = choose|i: int| n + 1 <= i < s.len() && s[i] == q;
        assert(n <= i < s.len() && s[i] == q);
    }
    if s[n] == q {
        assert(n <= n < s.len() && s[n] == q);
    }
}

/// To stand in `s` anywhere is to be contained in it.
pub proof fn lemma_among_all(s: Seq<u64>, q: u64)
    ensures
        among(s, 0, q) == s.contains(q),
{
    if s.contains(q) {
        let i = choose|i: int| 0 <= i < s.len() && s[i] == q;
        assert(0 <= i < s.len() && s[i] == q);
    }
    if among(s, 0, q) {
        let i = choose|i: int| 0 <= i < s.len() && s[i] == q;
        assert(s.contains(s[i]));
    }
}

/// A region whose pages did not translate meets no region whose pages
/// did.
proof fn lemma_apart_new(af: MapArea, b: MapArea, a0: MapArea, pt0: PageTable)
    requires
        b.mapped_in(&pt0),
        af.start() == a0.start(),
        forall|k: int| 0 <= k < af.mapped() ==> pt0.translate_spec(#[trigger] a0.page(k)) is None,
    ensures
        apart(af, b),
        apart(b, af),
{
    if !apart(af, b) {
        let u: int = if af.start() >= b.start() {
            af.start() as int
        } else {
            b.start() as int
        };
        let k = u - af.start();
        let l = u - b.start();
        assert(a0.page(k) == b.page(l));
        assert(pt0.translate_spec(a0.page(k)) is None);
        assert(pt0.translate_spec(b.page(l)) is Some);
    }
}

/// The mapped pages of two regions do not meet.
pub open spec fn apart(a: MapArea, b: MapArea) -> bool {
    a.mapped() == 0 || b.mapped() == 0 || a.start() + a.mapped() <= b.start() || b.start()
        + b.mapped() <= a.start()
}

/// An address space: a page table and the regions that it maps.
pub struct MemorySet {
    page_table: PageTable,
    areas: Vec<MapArea>,
    trampoline: Option<PhysPageNum>,
}

impl MemorySet {
    /// The page table of the address space.
    pub closed spec fn table(&self) -> PageTable {
        self.page_table
    }

    /// The regions of the address space, in the order in which they came.
    pub closed spec fn regions(&self) -> Seq<MapArea> {
        self.areas@
    }

    /// The frame that the trampoline page maps to, once it is mapped.
    pub closed spec fn trampoline_frame(&self) -> Option<PhysPageNum> {
        self.trampoline
    }

    /// What `vpn` translates to.
    pub open spec fn translate_spec(&self, vpn: VirtPageNum) -> Option<(PhysPageNum, PTEFlags)> {
        self.table().translate_spec(vpn)
    }

    /// The `k`-th frame of region `i`.
    pub open spec fn region_frame(&self, i: int, k: int) -> u64 {
        self.regions()[i].frame_ppns()[k]
    }

    /// Whether region `j` owns frame `q`.
    pub open spec fn region_owns(&self, j: int, q: u64) -> bool {
        self.regions()[j].frame_ppns().contains(q)
    }

    /// Every region is mapped in full and in order by the page table, to
    /// frames that hold no table.
    #[verifier::opaque]
    pub open spec fn regions_ok(&self) -> bool {
        forall|i: int|
            0 <= i < self.regions().len() ==> {
                let a = #[trigger] self.regions()[i];
                &&& a.inv()
                &&& a.fully_mapped()
                &&& a.mapped_in(&self.table())
                &&& a.disjoint_from(&self.table())
                &&& a.scattered_pages().len() == 0
            }
    }

    /// No frame belongs to two regions.
    #[verifier::opaque]
    pub open spec fn frames_apart(&self) -> bool {
        forall|i: int, j: int, k: int|
            0 <= i < self.regions().len() && 0 <= j < self.regions().len() && i != j && 0 <= k
                < self.regions()[i].frame_ppns().len() ==> !#[trigger] self.region_owns(
                j,
                self.region_frame(i, k),
            )
    }

    /// No page belongs to two regions.
    #[verifier::opaque]
    pub open spec fn pages_apart(&self) -> bool {
        forall|i: int, j: int|
            0 <= i < self.regions().len() && 0 <= j < self.regions().len() && i != j ==> apart(
                #[trigger] self.regions()[i],
                #[trigger] self.regions()[j],
            )
    }

    /// Once the trampoline is mapped, its page translates to the shared
    /// frame with exactly the flags valid, readable and executable, and
    /// lies in no region.
    #[verifier::opaque]
    pub open spec fn trampoline_ok(&self) -> bool {
        self.trampoline_frame() is Some ==> {
            let t = self.table().translate_spec(VirtPageNum(TRAMPOLINE_VPN));
            &&& t is Some
            &&& t.unwrap().0 == self.trampoline_frame().unwrap()
            &&& t.unwrap().1 == PTEFlags(0x0b)
            &&& forall|i: int|
                0 <= i < self.regions().len() ==> !(#[trigger] self.regions()[i]).covers(
                    TRAMPOLINE_VPN,
                )
        }
    }

    /// Whether the address space has a reason to translate `v`: the page
    /// shares its path through the page table with a mapped page of a
    /// region, or with the trampoline page once that is mapped.
    pub open spec fn maps(&self, v: VirtPageNum) -> bool {
        ||| self.trampoline_frame() is Some && same_path(v.0, TRAMPOLINE_VPN)
        ||| exists|i: int, k: int|
            0 <= i < self.regions().len() && 0 <= k < self.regions()[i].mapped() && same_path(
                v.0,
                #[trigger] self.regions()[i].page(k).0,
            )
    }

    /// The page table translates nothing but the pages of the regions
    /// and the trampoline page.
    #[verifier::opaque]
    pub open spec fn covered(&self) -> bool {
        forall|v: VirtPageNum| (#[trigger] self.table().translate_spec(v)) is Some ==> self.maps(v)
    }

    /// The invariant of an address space.
    pub open spec fn wf(&self) -> bool {
        &&& self.table().wf()
        &&& self.table().unblocked()
        &&& self.regions_ok()
        &&& self.frames_apart()
        &&& self.pages_apart()
        &&& self.trampoline_ok()
        &&& self.covered()
    }

    /// The page table translates exactly the pages of the regions and the
    /// trampoline page.
    pub proof fn lemma_exact_cover(&self, v: VirtPageNum)
        requires
            self.wf(),
        ensures
            self.translate_spec(v) is Some <==> self.maps(v),
    {
        reveal(MemorySet::covered);
        reveal(MemorySet::regions_ok);
        reveal(MemorySet::trampoline_ok);
        if self.maps(v) {
            if self.trampoline_frame() is Some && same_path(v.0, TRAMPOLINE_VPN) {
                self.table().lemma_same_path(v, VirtPageNum(TRAMPOLINE_VPN));
            } else {
                let (i, k) = choose|i: int, k: int|
                    0 <= i < self.regions().len() && 0 <= k < self.regions()[i].mapped()
                        && same_path(v.0, #[trigger] self.regions()[i].page(k).0);
                let a = self.regions()[i];
                assert(a.mapped_in(&self.table()));
                let t = self.table().translate_spec(a.page(k));
                self.table().lemma_same_path(v, a.page(k));
            }
        }
    }

    /// Every frame of the address space is marked as in use in `alloc`.
    pub open spec fn backed_by(&self, alloc: &BitmapFrameAllocator) -> bool {
        &&& self.table().backed_by(alloc)
        &&& forall|i: int|
            0 <= i < self.regions().len() ==> (#[trigger] self.regions()[i]).backed_by(alloc)
    }

    /// Whether the address space owns frame `q`, as a table or as a page.
    #[verifier::opaque]
    pub open spec fn owns(&self, q: u64) -> bool {
        self.table().owns(q) || exists|j: int|
            0 <= j < self.regions().len() && #[trigger] self.region_owns(j, q)
    }

    /// Number of frames that the address space owns: its tables and the
    /// pages of its framed regions.
    pub open spec fn owned_count(&self) -> nat {
        self.table().ppns().len() + frames_in(self.regions())
    }

    /// The SV39 mode bits over the frame number of the root table.
    pub open spec fn token_spec(&self) -> u64 {
        (0x8000_0000_0000_0000 + self.table().root()) as u64
    }

    /// An address space with an empty page table and no region. `None`
    /// when no frame is free for the root table.
    pub fn new_bare(alloc: &mut BitmapFrameAllocator) -> (r: Option<Self>)
        requires
            old(alloc).wf(),
        ensures
            final(alloc).wf(),
            final(alloc).start() == old(alloc).start(),
            final(alloc).end() == old(alloc).end(),
            match r {
                Some(ms) => {
                    &&& ms.wf()
                    &&& ms.backed_by(final(alloc))
                    &&& ms.regions().len() == 0
                    &&& ms.trampoline_frame() is None
                    &&& ms.table().is_empty()
                    &&& ms.table().ppns().len() == 1
                    &&& old(alloc).is_free(ms.table().root())
                    &&& forall|q: u64|
                        final(alloc).is_allocated(q) == (old(alloc).is_allocated(q) || q
                            == ms.table().root())
                    &&& final(alloc).frames_in_use() == old(alloc).frames_in_use() + 1
                    &&& ms.owned_count() == 1
                    &&& forall|a: u64| ms.byte_at(a) is None
                    &&& forall|q: u64| ms.owns(q) <==> q == ms.table().root()
                },
                None => *final(alloc) == *old(alloc) && old(alloc).free_count() == 0,
            },
    {
        match alloc.alloc_frame() {
            None => None,
            Some(root) => {
                let page_table = PageTable::new(root);
                let ms = MemorySet { page_table, areas: Vec::new(), trampoline: None };
                proof {
                    reveal(MemorySet::regions_ok);
                    reveal(MemorySet::frames_apart);
                    reveal(MemorySet::pages_apart);
                    reveal(MemorySet::trampoline_ok);
                    reveal(MemorySet::covered);
                    ms.page_table.lemma_empty_unblocked();
                    assert(ms.page_table.ppns()[0] == root.0);
                    assert(frames_in(ms.regions()) == 0);
                    assert forall|q: u64| ms.owns(q) <==> q == ms.table().root() by {
                        reveal(MemorySet::owns);
                    }
                }
                Some(ms)
            },
        }
    }

    /// Whether `data` fits into region `a` once all of its pages are mapped.
    pub open spec fn fits(a: MapArea, data: Option<&[u8]>) -> bool {
        match data {
            Some(d) => a.kind() == MapType::Framed && a.first_va() % 4096 + d@.len()
                <= a.page_count() * 4096,
            None => true,
        }
    }

    /// The byte that `push` leaves at offset `i` of the new region.
    pub open spec fn pushed_byte(a: MapArea, data: Option<&[u8]>, i: int) -> u8 {
        match data {
            Some(d) => if a.first_va() % 4096 <= i < a.first_va() % 4096 + d@.len() {
                d@[i - a.first_va() % 4096]
            } else {
                0
            },
            None => 0,
        }
    }

    /// Maps every page of `map_area`, writes `data` into it beginning at the
    /// address that the region was made for, and adds the region to the
    /// address space.
    ///
    /// Fails with `OutOfRange` if `data` does not fit or the range of the
    /// region cannot be mapped, with `AlreadyMapped` if one of the pages
    /// translates already, and with `OutOfMemory` if the free frames do not
    /// suffice. The address space then translates as before and has the
    /// regions it had; tables that were made on the way stay with it.
    #[verifier::rlimit(100)]
    pub fn push(
        &mut self,
        map_area: MapArea,
        data: Option<&[u8]>,
        alloc: &mut BitmapFrameAllocator,
    ) -> (r: Result<(), MapError>)
        requires
            old(self).wf(),
            old(alloc).wf(),
            old(self).backed_by(old(alloc)),
            map_area.inv(),
            map_area.mapped() == 0,
            map_area.frame_ppns().len() == 0,
            map_area.scattered_pages().len() == 0,
        ensures
            final(self).wf(),
            final(alloc).wf(),
            final(self).backed_by(final(alloc)),
            final(alloc).start() == old(alloc).start(),
            final(alloc).end() == old(alloc).end(),
            final(self).trampoline_frame() == old(self).trampoline_frame(),
            final(self).table().root() == old(self).table().root(),
            final(self).table().ppns().len() >= old(self).table().ppns().len(),
            final(alloc).frames_in_use() - old(alloc).frames_in_use() == final(self).owned_count()
                - old(self).owned_count(),
            forall|q: u64| old(alloc).is_allocated(q) ==> final(alloc).is_allocated(q),
            forall|q: u64| old(self).owns(q) ==> final(self).owns(q),
            forall|q: u64| final(self).owns(q) && !old(self).owns(q) ==> old(alloc).is_free(q),
            forall|v: VirtPageNum|
                old(self).translate_spec(v) is Some
                    ==> final(self).translate_spec(v) == old(self).translate_spec(v),
            forall|v: VirtPageNum|
                !map_area.touches(0, map_area.page_count(), v) || r is Err
                    ==> final(self).translate_spec(v) == old(self).translate_spec(v),
            forall|va: u64|
                #[trigger] final(self).byte_at(va) == (if r is Ok && map_area.kind()
                    == MapType::Framed && map_area.start() <= va / 4096 < map_area.end() {
                    Some(
                        Self::pushed_byte(
                            map_area,
                            data,
                            (va / 4096 - map_area.start()) * 4096 + va % 4096,
                        ),
                    )
                } else {
                    old(self).byte_at(va)
                }),
            final(self).owned_count() - old(self).owned_count() <= frames_for(
                map_area.kind(),
                map_area.start() as int,
                map_area.end() as int,
            ),
            r == Err::<(), MapError>(MapError::OutOfMemory) ==> old(alloc).free_count()
                < frames_for(map_area.kind(), map_area.start() as int, map_area.end() as int),
            match r {
                Ok(()) => {
                    &&& Self::fits(map_area, data)
                    &&& map_area.page_count() > 0 ==> map_area.range_ok()
                    &&& forall|k: int|
                        0 <= k < map_area.page_count() ==> old(self).translate_spec(
                            #[trigger] map_area.page(k),
                        ) is None
                    &&& forall|k: int|
                        0 <= k < map_area.page_count() ==> (#[trigger] final(self).translate_spec(
                            map_area.page(k),
                        )) is Some && final(self).translate_spec(map_area.page(k)).unwrap().1
                            == PTEFlags(map_area.perm().0 | 1)
                    &&& forall|v: VirtPageNum|
                        (#[trigger] final(self).translate_spec(v)) is Some
                            <==> old(self).translate_spec(v) is Some || map_area.touches(
                            0,
                            map_area.page_count(),
                            v,
                        )
                    &&& final(self).regions().len() == old(self).regions().len() + 1
                    &&& forall|i: int|
                        0 <= i < old(self).regions().len()
                            ==> final(self).regions()[i] == old(self).regions()[i]
                    &&& ({
                        let a = final(self).regions().last();
                        &&& a.start() == map_area.start()
                        &&& a.end() == map_area.end()
                        &&& a.kind() == map_area.kind()
                        &&& a.perm() == map_area.perm()
                        &&& a.first_va() == map_area.first_va()
                        &&& a.kind() == MapType::Framed ==> forall|i: int|
                            0 <= i < a.mapped() * 4096 ==> #[trigger] a.byte(i) == Self::pushed_byte(
                                map_area,
                                data,
                                i,
                            )
                    })
                },
                Err(e) => {
                    &&& final(self).regions() == old(self).regions()
                    &&& e == MapError::OutOfRange || e == MapError::AlreadyMapped || e
                        == MapError::OutOfMemory
                    &&& e == MapError::OutOfRange <==> !Self::fits(map_area, data) || (
                    map_area.page_count() > 0 && !map_area.range_ok())
                    &&& e == MapError::AlreadyMapped ==> exists|k: int|
                        0 <= k < map_area.page_count() && old(self).translate_spec(
                            #[trigger] map_area.page(k),
                        ) is Some
                    &&& e == MapError::OutOfMemory
                        ==> old(alloc).free_count() - (final(self).table().ppns().len()
                        - old(self).table().ppns().len())
                        < map_area.page_count()
                },
            },
    {
        let mut map_area = map_area;
        let ghost a0 = map_area;
        let range = map_area.vpn_range();
        let count: u64 = if range.start.0 <= range.end.0 {
            range.end.0 - range.start.0
        } else {
            0
        };
        let fits = match data {
            Some(d) => map_area.map_type() == MapType::Framed && (map_area.first_address() % 4096)
                as u128 + (d.len() as u128) <= (count as u128) * 4096,
            None => true,
        };
        if !fits {
            return Err(MapError::OutOfRange);
        }
        proof {
            assert(map_area.attached(&self.page_table, alloc));
            old(alloc).lemma_allocated_finite();
        }
        match map_area.map(&mut self.page_table, alloc) {
            Ok(()) => {
                let ghost am = map_area;
                match data {
                    Some(d) => {
                        let c = map_area.copy_data(d);
                        proof {
                            assert(c is Ok);
                            Self::lemma_pushed_bytes(
                                a0,
                                am,
                                map_area,
                                data,
                                old(self).page_table,
                                self.page_table,
                                *old(alloc),
                                *alloc,
                            );
                        }
                    },
                    None => {
                        proof {
                            Self::lemma_pushed_bytes(
                                a0,
                                am,
                                map_area,
                                data,
                                old(self).page_table,
                                self.page_table,
                                *old(alloc),
                                *alloc,
                            );
                        }
                    },
                }
                let ghost af = map_area;
                self.areas.push(map_area);
                proof {
                    self.lemma_pushed(*old(self), a0, am, af, *old(alloc), *alloc);
                    self.lemma_pushed_byte_at(*old(self), a0, af, data);
                    assert(am.mapped() == a0.page_count());
                    self.lemma_pushed_domain(*old(self), a0, af);
                    lemma_grew(old(self).page_table, self.page_table, a0, am, *old(alloc), *alloc);
                }
                Ok(())
            },
            Err(e) => {
                let ghost am = map_area;
                let ghost pt1 = self.page_table;
                let ghost alloc1 = *alloc;
                let u = map_area.unmap(&mut self.page_table, alloc);
                proof {
                    assert(u is Ok);
                    self.lemma_rolled_back(*old(self), a0, am, map_area, pt1, *old(alloc), alloc1, *alloc);
                    if e == MapError::AlreadyMapped {
                        assert(old(self).translate_spec(a0.page(am.mapped())) is Some);
                    }
                    if e == MapError::OutOfMemory {
                        alloc1.lemma_allocated_finite();
                    }
                    self.lemma_bytes_kept(*old(self));
                    lemma_grew(old(self).page_table, pt1, a0, am, *old(alloc), alloc1);
                    lemma_frames_for(
                        a0.kind(),
                        a0.start() as int,
                        a0.start() as int,
                        a0.start() + am.mapped() + 1,
                        a0.end() as int,
                    );
                }
                Err(e)
            },
        }
    }

    /// The bytes of a region that was mapped afresh and then written to.
    proof fn lemma_pushed_bytes(
        a0: MapArea,
        am: MapArea,
        af: MapArea,
        data: Option<&[u8]>,
        pt0: PageTable,
        pt1: PageTable,
        alloc0: BitmapFrameAllocator,
        alloc1: BitmapFrameAllocator,
    )
        requires
            a0.frame_ppns().len() == 0,
            grew(pt0, pt1, a0, am, alloc0, alloc1),
            am.inv(),
            am.first_va() == a0.first_va(),
            am.start() == a0.start(),
            am.end() == a0.end(),
            am.kind() == a0.kind(),
            am.fully_mapped(),
            af.mapped() == am.mapped(),
            match data {
                Some(d) => am.kind() == MapType::Framed && forall|i: int|
                    0 <= i < am.mapped() * 4096 ==> #[trigger] af.byte(i) == (if am.first_va() % 4096
                        <= i < am.first_va() % 4096 + d@.len() {
                        d@[i - am.first_va() % 4096]
                    } else {
                        am.byte(i)
                    }),
                None => af == am,
            },
        ensures
            af.kind() == MapType::Framed ==> forall|i: int|
                0 <= i < af.mapped() * 4096 ==> #[trigger] af.byte(i) == Self::pushed_byte(
                    a0,
                    data,
                    i,
                ),
    {
        reveal(grew);
        if af.kind() == MapType::Framed {
            assert forall|i: int| 0 <= i < af.mapped() * 4096 implies #[trigger] af.byte(i)
                == Self::pushed_byte(a0, data, i) by {
                let pp = am.frame_ppns()[i / 4096];
                let fd = am.frame_data(i / 4096);
                assert(fd[i % 4096] == 0);
                assert(am.byte(i) == 0);
            }
        }
    }

    /// Every frame that the address space owns is marked as in use.
    pub proof fn lemma_owned_allocated(&self, alloc: BitmapFrameAllocator)
        requires
            self.backed_by(&alloc),
        ensures
            forall|q: u64| self.owns(q) ==> alloc.is_allocated(q),
    {
        reveal(MemorySet::owns);
        assert forall|q: u64| self.owns(q) implies alloc.is_allocated(q) by {
            if self.table().owns(q) {
                let i = choose|i: int|
                    0 <= i < self.table().ppns().len() && self.table().ppns()[i] == q;
                assert(alloc.is_allocated(self.table().ppns()[i]));
            } else {
                let j = choose|j: int|
                    0 <= j < self.regions().len() && #[trigger] self.region_owns(j, q);
                let a = self.regions()[j];
                let i = choose|i: int| 0 <= i < a.frame_ppns().len() && a.frame_ppns()[i] == q;
                assert(a.backed_by(&alloc));
                assert(alloc.is_allocated(a.frame_ppns()[i]));
            }
        }
    }

    /// An address space all of whose frames are marked as in use is backed.
    pub proof fn lemma_backed(&self, alloc: BitmapFrameAllocator)
        requires
            forall|q: u64| self.owns(q) ==> alloc.is_allocated(q),
        ensures
            self.backed_by(&alloc),
    {
        reveal(MemorySet::owns);
        assert forall|i: int| 0 <= i < self.table().ppns().len() implies alloc.is_allocated(
            #[trigger] self.table().ppns()[i],
        ) by {
            assert(self.table().owns(self.table().ppns()[i]));
            assert(self.owns(self.table().ppns()[i]));
        }
        assert forall|j: int| 0 <= j < self.regions().len() implies (
        #[trigger] self.regions()[j]).backed_by(&alloc) by {
            let a = self.regions()[j];
            assert forall|k: int| 0 <= k < a.frame_ppns().len() implies alloc.is_allocated(
                #[trigger] a.frame_ppns()[k],
            ) by {
                assert(a.frame_ppns().contains(a.frame_ppns()[k]));
                assert(self.region_owns(j, a.frame_ppns()[k]));
                assert(self.owns(a.frame_ppns()[k]));
            }
        }
    }

    /// What an address space owns after its table grew and, perhaps, a
    /// region with the frames `extra` joined it.
    proof fn lemma_owns_grown(&self, before: Self, extra: Seq<u64>, alloc0: BitmapFrameAllocator)
        requires
            before.table().ppns().len() <= self.table().ppns().len(),
            forall|i: int|
                0 <= i < before.table().ppns().len() ==> self.table().ppns()[i]
                    == before.table().ppns()[i],
            forall|i: int|
                before.table().ppns().len() <= i < self.table().ppns().len() ==> alloc0.is_free(
                    #[trigger] self.table().ppns()[i],
                ),
            forall|i: int| 0 <= i < extra.len() ==> alloc0.is_free(#[trigger] extra[i]),
            self.regions() == before.regions() || (self.regions().len() == before.regions().len()
                + 1 && self.regions().drop_last() == before.regions()
                && self.regions().last().frame_ppns() == extra),
        ensures
            forall|q: u64| before.owns(q) ==> self.owns(q),
            forall|q: u64| self.owns(q) && !before.owns(q) ==> alloc0.is_free(q),
    {
        reveal(MemorySet::owns);
        let pt0 = before.table();
        let pt1 = self.table();
        let n = before.regions().len() as int;
        assert forall|q: u64| before.owns(q) implies self.owns(q) by {
            if pt0.owns(q) {
                let m = choose|m: int| 0 <= m < pt0.ppns().len() && pt0.ppns()[m] == q;
                assert(pt1.ppns()[m] == q);
            } else {
                let j = choose|j: int|
                    0 <= j < before.regions().len() && #[trigger] before.region_owns(j, q);
                if self.regions() != before.regions() {
                    assert(self.regions().drop_last()[j] == before.regions()[j]);
                }
                assert(self.regions()[j] == before.regions()[j]);
                assert(self.region_owns(j, q));
            }
        }
        assert forall|q: u64| self.owns(q) && !before.owns(q) implies alloc0.is_free(q) by {
            if pt1.owns(q) {
                let m = choose|m: int| 0 <= m < pt1.ppns().len() && pt1.ppns()[m] == q;
                if m < pt0.ppns().len() {
                    assert(pt0.ppns()[m] == q);
                    assert(pt0.owns(q));
                } else {
                    assert(alloc0.is_free(pt1.ppns()[m]));
                }
            } else {
                let j = choose|j: int|
                    0 <= j < self.regions().len() && #[trigger] self.region_owns(j, q);
                if self.regions() == before.regions() || j < n {
                    if self.regions() != before.regions() {
                        assert(self.regions().drop_last()[j] == before.regions()[j]);
                    }
                    assert(before.region_owns(j, q));
                } else {
                    let i = choose|i: int| 0 <= i < extra.len() && extra[i] == q;
                    assert(alloc0.is_free(extra[i]));
                }
            }
        }
    }

    /// What `push` knows once the new region is mapped and has joined the
    /// regions of the address space.
    pub open spec fn pushed_pre(
        &self,
        before: Self,
        a0: MapArea,
        am: MapArea,
        af: MapArea,
        alloc0: BitmapFrameAllocator,
        alloc1: BitmapFrameAllocator,
    ) -> bool {
        &&& before.wf()
        &&& alloc0.wf()
        &&& before.backed_by(&alloc0)
        &&& a0.mapped() == 0
        &&& a0.frame_ppns().len() == 0
        &&& af.scattered_pages().len() == 0
        &&& am.attached(&self.table(), &alloc1)
        &&& am.fully_mapped()
        &&& am.start() == a0.start()
        &&& am.end() == a0.end()
        &&& grew(before.table(), self.table(), a0, am, alloc0, alloc1)
        &&& af.inv()
        &&& af.start() == am.start()
        &&& af.end() == am.end()
        &&& af.kind() == am.kind()
        &&& af.perm() == am.perm()
        &&& af.mapped() == am.mapped()
        &&& af.frame_ppns() == am.frame_ppns()
        &&& forall|v: VirtPageNum|
            before.table().translate_spec(v) is Some ==> self.table().translate_spec(v)
                == before.table().translate_spec(v)
        &&& forall|v: VirtPageNum|
            !a0.touches(0, am.mapped(), v) ==> self.table().translate_spec(v)
                == before.table().translate_spec(v)
        &&& forall|k: int|
            0 <= k < am.mapped() ==> before.table().translate_spec(#[trigger] a0.page(k)) is None
        &&& forall|v: VirtPageNum|
            self.table().path_blocked(v) == before.table().path_blocked(v)
        &&& self.regions() == before.regions().push(af)
        &&& self.trampoline_frame() == before.trampoline_frame()
        &&& self.table().ppns().len() - before.table().ppns().len() <= 2 * am.mapped()
    }

    /// What holds once a freshly mapped region has joined the address space.
    proof fn lemma_pushed(
        &self,
        before: Self,
        a0: MapArea,
        am: MapArea,
        af: MapArea,
        alloc0: BitmapFrameAllocator,
        alloc1: BitmapFrameAllocator,
    )
        requires
            self.pushed_pre(before, a0, am, af, alloc0, alloc1),
        ensures
            self.wf(),
            self.backed_by(&alloc1),
            self.owned_count() - before.owned_count() == alloc1.frames_in_use()
                - alloc0.frames_in_use(),
            forall|q: u64| alloc0.is_allocated(q) ==> alloc1.is_allocated(q),
            forall|q: u64| before.owns(q) ==> self.owns(q),
            forall|q: u64| self.owns(q) && !before.owns(q) ==> alloc0.is_free(q),
            alloc1.start() == alloc0.start(),
            alloc1.end() == alloc0.end(),
            self.table().ppns().len() >= before.table().ppns().len(),
            self.owned_count() - before.owned_count() <= 3 * am.page_count(),
            self.table().root() == before.table().root(),
    {
        lemma_grew(before.table(), self.table(), a0, am, alloc0, alloc1);
        before.table().lemma_ppns();
        self.lemma_pushed_regions(before, a0, am, af, alloc0, alloc1);
        self.lemma_pushed_frames(before, a0, am, af, alloc0, alloc1);
        self.lemma_pushed_pages(before, a0, am, af, alloc0, alloc1);
        self.lemma_pushed_trampoline(before, a0, am, af, alloc0, alloc1);
        self.lemma_pushed_cover(before, a0, am, af, alloc0, alloc1);
        assert(self.regions().drop_last() =~= before.regions());
        self.lemma_owns_grown(before, af.frame_ppns(), alloc0);
        assert forall|v: VirtPageNum| !self.table().path_blocked(v) by {
            assert(!before.table().path_blocked(v));
        }
    }

    /// With the new region, every region is still in order and backed.
    #[verifier::rlimit(100)]
    proof fn lemma_pushed_regions(
        &self,
        before: Self,
        a0: MapArea,
        am: MapArea,
        af: MapArea,
        alloc0: BitmapFrameAllocator,
        alloc1: BitmapFrameAllocator,
    )
        requires
            self.pushed_pre(before, a0, am, af, alloc0, alloc1),
        ensures
            self.regions_ok(),
            self.backed_by(&alloc1),
    {
        lemma_grew(before.table(), self.table(), a0, am, alloc0, alloc1);
        reveal(MemorySet::regions_ok);
        let n = before.regions().len() as int;
        let pt0 = before.table();
        let pt1 = self.table();
        assert(af.attached(&pt1, &alloc1)) by {
            assert forall|k: int| 0 <= k < af.mapped() implies {
                let t = #[trigger] pt1.translate_spec(af.page(k));
                &&& t is Some
                &&& t.unwrap().0.0 == af.backing(k)
                &&& t.unwrap().1.has(PTEFlags(af.perm().0 | 1))
            } by {
                let t = pt1.translate_spec(am.page(k));
                assert(am.page(k) == af.page(k));
                assert(am.backing(k) == af.backing(k));
            }
        }
        assert forall|i: int| 0 <= i < n implies {
            let a = #[trigger] before.regions()[i];
            &&& a.mapped_in(&pt1)
            &&& a.disjoint_from(&pt1)
            &&& a.backed_by(&alloc1)
        } by {
            let a = before.regions()[i];
            assert(a.backed_by(&alloc0));
            assert forall|k: int| 0 <= k < a.mapped() implies {
                let t = #[trigger] pt1.translate_spec(a.page(k));
                &&& t is Some
                &&& t.unwrap().0.0 == a.backing(k)
                &&& t.unwrap().1.has(PTEFlags(a.perm().0 | 1))
            } by {
                let t0 = pt0.translate_spec(a.page(k));
                assert(t0 is Some);
            }
            assert forall|k: int| 0 <= k < a.frame_ppns().len() implies !pt1.owns(
                #[trigger] a.frame_ppns()[k],
            ) by {
                let q = a.frame_ppns()[k];
                assert(alloc0.is_allocated(q));
                assert(!pt0.owns(q));
                if pt1.owns(q) {
                    let m = choose|m: int| 0 <= m < pt1.ppns().len() && pt1.ppns()[m] == q;
                    if m < pt0.ppns().len() {
                        assert(pt0.ppns()[m] == q);
                    } else {
                        assert(alloc0.is_free(pt1.ppns()[m]));
                    }
                }
            }
            assert forall|k: int| 0 <= k < a.frame_ppns().len() implies alloc1.is_allocated(
                #[trigger] a.frame_ppns()[k],
            ) by {
                assert(alloc0.is_allocated(a.frame_ppns()[k]));
            }
        }
        assert forall|i: int| 0 <= i < self.regions().len() implies {
            let a = #[trigger] self.regions()[i];
            &&& a.inv()
            &&& a.fully_mapped()
            &&& a.mapped_in(&self.table())
            &&& a.disjoint_from(&self.table())
            &&& a.backed_by(&alloc1)
        } by {
            if i < n {
                assert(self.regions()[i] == before.regions()[i]);
            }
        }
    }

    /// With the new region, still no frame belongs to two owners.
    proof fn lemma_pushed_frames(
        &self,
        before: Self,
        a0: MapArea,
        am: MapArea,
        af: MapArea,
        alloc0: BitmapFrameAllocator,
        alloc1: BitmapFrameAllocator,
    )
        requires
            self.pushed_pre(before, a0, am, af, alloc0, alloc1),
        ensures
            self.frames_apart(),
    {
        lemma_grew(before.table(), self.table(), a0, am, alloc0, alloc1);
        reveal(MemorySet::frames_apart);
        let n = before.regions().len() as int;
        assert forall|i: int, j: int, k: int|
            0 <= i < self.regions().len() && 0 <= j < self.regions().len() && i != j && 0 <= k
                < self.regions()[i].frame_ppns().len() implies !#[trigger] self.region_owns(
            j,
            self.region_frame(i, k),
        ) by {
            let q = self.region_frame(i, k);
            if i < n && j < n {
                assert(!before.region_owns(j, before.region_frame(i, k)));
            } else if i == n {
                assert(alloc0.is_free(am.frame_ppns()[k]));
                let b = before.regions()[j];
                assert(b.backed_by(&alloc0));
                if b.frame_ppns().contains(q) {
                    let l = choose|l: int| 0 <= l < b.frame_ppns().len() && b.frame_ppns()[l] == q;
                    assert(alloc0.is_allocated(b.frame_ppns()[l]));
                }
            } else {
                let a = before.regions()[i];
                assert(a.backed_by(&alloc0));
                assert(alloc0.is_allocated(a.frame_ppns()[k]));
                if af.frame_ppns().contains(q) {
                    let l = choose|l: int| 0 <= l < af.frame_ppns().len() && af.frame_ppns()[l] == q;
                    assert(alloc0.is_free(am.frame_ppns()[l]));
                }
            }
        }
    }

    /// With the new region, still no page belongs to two regions.
    #[verifier::rlimit(100)]
    proof fn lemma_pushed_pages(
        &self,
        before: Self,
        a0: MapArea,
        am: MapArea,
        af: MapArea,
        alloc0: BitmapFrameAllocator,
        alloc1: BitmapFrameAllocator,
    )
        requires
            self.pushed_pre(before, a0, am, af, alloc0, alloc1),
        ensures
            self.pages_apart(),
    {
        reveal(MemorySet::pages_apart);
        reveal(MemorySet::regions_ok);
        let n = before.regions().len() as int;
        let pt0 = before.table();
        assert forall|i: int, j: int|
            0 <= i < self.regions().len() && 0 <= j < self.regions().len() && i != j implies apart(
            #[trigger] self.regions()[i],
            #[trigger] self.regions()[j],
        ) by {
            if i < n && j < n {
                assert(apart(before.regions()[i], before.regions()[j]));
            } else {
                let b = if i == n {
                    before.regions()[j]
                } else {
                    before.regions()[i]
                };
                assert(b.mapped_in(&pt0));
                lemma_apart_new(af, b, a0, pt0);
            }
        }
    }

    /// A region that was mapped in full lies in one half of the address space.
    proof fn lemma_pushed_domain(&self, before: Self, a0: MapArea, af: MapArea)
        requires
            self.wf(),
            self.regions() == before.regions().push(af),
            af.start() == a0.start(),
            af.end() == a0.end(),
            forall|v: VirtPageNum|
                !a0.touches(0, a0.page_count(), v) ==> self.table().translate_spec(v)
                    == before.table().translate_spec(v),
            forall|k: int|
                0 <= k < a0.page_count() ==> before.table().translate_spec(#[trigger] a0.page(k))
                    is None,
        ensures
            a0.page_count() > 0 ==> af.range_ok(),
            forall|v: VirtPageNum|
                (#[trigger] self.translate_spec(v)) is Some <==> before.translate_spec(v) is Some
                    || a0.touches(0, a0.page_count(), v),
    {
        let n = before.regions().len() as int;
        self.lemma_region_shape(n);
        assert(self.regions()[n] == af);
        assert forall|v: VirtPageNum|
            (#[trigger] self.translate_spec(v)) is Some <==> before.translate_spec(v) is Some
                || a0.touches(0, a0.page_count(), v) by {
            if a0.touches(0, a0.page_count(), v) {
                let k = choose|k: int|
                    0 <= k < a0.page_count() && same_path(v.0, #[trigger] a0.page(k).0);
                self.lemma_region_translates(n, k);
                assert(af.page(k) == a0.page(k));
                self.table().lemma_same_path(v, a0.page(k));
            } else {
                let t = before.table().translate_spec(v);
            }
        }
    }

    /// With the new region, the regions and the trampoline still cover
    /// exactly the pages that translate.
    proof fn lemma_pushed_cover(
        &self,
        before: Self,
        a0: MapArea,
        am: MapArea,
        af: MapArea,
        alloc0: BitmapFrameAllocator,
        alloc1: BitmapFrameAllocator,
    )
        requires
            self.pushed_pre(before, a0, am, af, alloc0, alloc1),
        ensures
            self.covered(),
    {
        reveal(MemorySet::covered);
        let n = before.regions().len() as int;
        assert forall|v: VirtPageNum| (#[trigger] self.table().translate_spec(v))
            is Some implies self.maps(v) by {
            if a0.touches(0, am.mapped(), v) {
                let k = choose|k: int|
                    0 <= k < am.mapped() && same_path(v.0, #[trigger] a0.page(k).0);
                assert(self.regions()[n].page(k) == a0.page(k));
                assert(same_path(v.0, self.regions()[n].page(k).0));
            } else {
                assert(before.table().translate_spec(v) is Some);
                assert(before.maps(v));
                if !(before.trampoline_frame() is Some && same_path(v.0, TRAMPOLINE_VPN)) {
                    let (i, k) = choose|i: int, k: int|
                        0 <= i < before.regions().len() && 0 <= k < before.regions()[i].mapped()
                            && same_path(v.0, #[trigger] before.regions()[i].page(k).0);
                    assert(self.regions()[i] == before.regions()[i]);
                    assert(same_path(v.0, self.regions()[i].page(k).0));
                }
            }
        }
    }

    /// With the new region, the trampoline is mapped as before.
    proof fn lemma_pushed_trampoline(
        &self,
        before: Self,
        a0: MapArea,
        am: MapArea,
        af: MapArea,
        alloc0: BitmapFrameAllocator,
        alloc1: BitmapFrameAllocator,
    )
        requires
            self.pushed_pre(before, a0, am, af, alloc0, alloc1),
        ensures
            self.trampoline_ok(),
            self.table().root() == before.table().root(),
    {
        lemma_grew(before.table(), self.table(), a0, am, alloc0, alloc1);
        before.table().lemma_ppns();
        reveal(MemorySet::trampoline_ok);
        let n = before.regions().len() as int;
        let pt0 = before.table();
        if self.trampoline_frame() is Some {
            let tv = VirtPageNum(TRAMPOLINE_VPN);
            assert(pt0.translate_spec(tv) is Some);
            assert forall|i: int| 0 <= i < self.regions().len() implies !(
            #[trigger] self.regions()[i]).covers(TRAMPOLINE_VPN) by {
                if i < n {
                    assert(!before.regions()[i].covers(TRAMPOLINE_VPN));
                } else {
                    if af.covers(TRAMPOLINE_VPN) {
                        let k = TRAMPOLINE_VPN - af.start();
                        assert(a0.page(k) == tv);
                        assert(pt0.translate_spec(a0.page(k)) is None);
                    }
                }
            }
        }
    }

    /// What holds once a region that could not be mapped in full is
    /// unmapped again.
    #[verifier::rlimit(100)]
    proof fn lemma_rolled_back(
        &self,
        before: Self,
        a0: MapArea,
        am: MapArea,
        au: MapArea,
        pt1: PageTable,
        alloc0: BitmapFrameAllocator,
        alloc1: BitmapFrameAllocator,
        alloc2: BitmapFrameAllocator,
    )
        requires
            before.wf(),
            alloc0.wf(),
            before.backed_by(&alloc0),
            a0.inv(),
            a0.mapped() == 0,
            a0.frame_ppns().len() == 0,
            am.start() == a0.start(),
            am.end() == a0.end(),
            am.inv(),
            grew(before.table(), pt1, a0, am, alloc0, alloc1),
            forall|v: VirtPageNum|
                before.table().translate_spec(v) is Some ==> pt1.translate_spec(v)
                    == before.table().translate_spec(v),
            forall|v: VirtPageNum|
                !a0.touches(0, am.mapped(), v) ==> pt1.translate_spec(v)
                    == before.table().translate_spec(v),
            forall|k: int|
                0 <= k < am.mapped() ==> before.table().translate_spec(#[trigger] a0.page(k))
                    is None,
            forall|v: VirtPageNum| pt1.path_blocked(v) == before.table().path_blocked(v),
            self.table().wf(),
            alloc2.wf(),
            self.table().backed_by(&alloc2),
            self.table().ppns() == pt1.ppns(),
            au.mapped() == 0,
            au.frame_ppns().len() == 0,
            forall|v: VirtPageNum|
                !am.touches(0, am.mapped(), v) ==> self.table().translate_spec(v)
                    == pt1.translate_spec(v),
            forall|k: int|
                0 <= k < am.mapped() ==> self.table().translate_spec(#[trigger] am.page(k))
                    is None,
            forall|v: VirtPageNum| self.table().path_blocked(v) == pt1.path_blocked(v),
            forall|q: u64|
                alloc2.is_allocated(q) == (alloc1.is_allocated(q) && !am.frame_ppns().skip(
                    0,
                ).contains(q)),
            alloc2.frames_in_use() + am.frame_ppns().len() == alloc1.frames_in_use(),
            alloc2.start() == alloc1.start(),
            alloc2.end() == alloc1.end(),
            pt1.ppns().len() - before.table().ppns().len() <= 2 * am.mapped() + 2,
            am.mapped() < am.page_count(),
            self.regions() == before.regions(),
            self.trampoline_frame() == before.trampoline_frame(),
        ensures
            self.wf(),
            self.backed_by(&alloc2),
            forall|v: VirtPageNum|
                self.table().translate_spec(v) == before.table().translate_spec(v),
            self.owned_count() - before.owned_count() == alloc2.frames_in_use()
                - alloc0.frames_in_use(),
            forall|q: u64| alloc0.is_allocated(q) ==> alloc2.is_allocated(q),
            forall|q: u64| before.owns(q) ==> self.owns(q),
            forall|q: u64| self.owns(q) && !before.owns(q) ==> alloc0.is_free(q),
            alloc2.start() == alloc0.start(),
            alloc2.end() == alloc0.end(),
            self.table().ppns().len() >= before.table().ppns().len(),
            alloc0.free_count() == alloc1.free_count() + (self.table().ppns().len()
                - before.table().ppns().len()) + am.frame_ppns().len(),
            self.owned_count() - before.owned_count() <= 3 * am.page_count(),
            alloc1.free_count() == 0 ==> alloc0.free_count() < 3 * am.page_count(),
            self.table().root() == before.table().root(),
    {
        lemma_grew(before.table(), pt1, a0, am, alloc0, alloc1);
        reveal(MemorySet::regions_ok);
        reveal(MemorySet::frames_apart);
        reveal(MemorySet::pages_apart);
        reveal(MemorySet::trampoline_ok);
        let pt0 = before.table();
        let pt2 = self.table();
        pt0.lemma_ppns();
        assert(am.frame_ppns().skip(0) =~= am.frame_ppns());
        assert forall|v: VirtPageNum| pt2.translate_spec(v) == pt0.translate_spec(v) by {
            if a0.touches(0, am.mapped(), v) {
                let k = choose|k: int|
                    0 <= k < am.mapped() && same_path(v.0, #[trigger] a0.page(k).0);
                assert(am.page(k) == a0.page(k));
                pt0.lemma_same_path(v, a0.page(k));
                pt2.lemma_same_path(v, am.page(k));
                assert(pt0.translate_spec(a0.page(k)) is None);
                assert(pt2.translate_spec(am.page(k)) is None);
                assert(pt0.translate_spec(v) is None);
                assert(pt2.translate_spec(v) is None);
            } else {
                assert(!am.touches(0, am.mapped(), v)) by {
                    if am.touches(0, am.mapped(), v) {
                        let k = choose|k: int|
                            0 <= k < am.mapped() && same_path(v.0, #[trigger] am.page(k).0);
                        assert(am.page(k) == a0.page(k));
                        assert(same_path(v.0, a0.page(k).0));
                    }
                }
                assert(pt1.translate_spec(v) == pt0.translate_spec(v));
                assert(pt2.translate_spec(v) == pt1.translate_spec(v));
            }
        }
        assert forall|v: VirtPageNum| !pt2.path_blocked(v) by {
            assert(pt1.path_blocked(v) == pt0.path_blocked(v));
            assert(pt2.path_blocked(v) == pt1.path_blocked(v));
        }
        assert(self.covered()) by {
            reveal(MemorySet::covered);
            assert forall|v: VirtPageNum| (#[trigger] self.table().translate_spec(v))
                is Some implies self.maps(v) by {
                assert(before.table().translate_spec(v) is Some);
                assert(before.maps(v));
            }
        }
        assert forall|i: int| 0 <= i < self.regions().len() implies {
            let a = #[trigger] self.regions()[i];
            &&& a.inv()
            &&& a.fully_mapped()
            &&& a.mapped_in(&pt2)
            &&& a.disjoint_from(&pt2)
            &&& a.backed_by(&alloc2)
        } by {
            let a = before.regions()[i];
            assert(a.backed_by(&alloc0));
            assert forall|k: int| 0 <= k < a.mapped() implies {
                let t = #[trigger] pt2.translate_spec(a.page(k));
                &&& t is Some
                &&& t.unwrap().0.0 == a.backing(k)
                &&& t.unwrap().1.has(PTEFlags(a.perm().0 | 1))
            } by {
                let t0 = pt0.translate_spec(a.page(k));
                assert(t0 is Some);
            }
            assert forall|k: int| 0 <= k < a.frame_ppns().len() implies !pt2.owns(
                #[trigger] a.frame_ppns()[k],
            ) && alloc2.is_allocated(a.frame_ppns()[k]) by {
                let q = a.frame_ppns()[k];
                assert(alloc0.is_allocated(q));
                assert(!pt0.owns(q));
                if pt2.owns(q) {
                    let m = choose|m: int| 0 <= m < pt2.ppns().len() && pt2.ppns()[m] == q;
                    if m < pt0.ppns().len() {
                        assert(pt0.ppns()[m] == q);
                    } else {
                        assert(alloc0.is_free(pt1.ppns()[m]));
                    }
                }
                if am.frame_ppns().contains(q) {
                    let l = choose|l: int| 0 <= l < am.frame_ppns().len() && am.frame_ppns()[l] == q;
                    assert(alloc0.is_free(am.frame_ppns()[l]));
                }
            }
        }
        assert(self.frames_apart()) by {
            assert forall|i: int, j: int, k: int|
                0 <= i < self.regions().len() && 0 <= j < self.regions().len() && i != j && 0 <= k
                    < self.regions()[i].frame_ppns().len() implies !#[trigger] self.region_owns(
                j,
                self.region_frame(i, k),
            ) by {
                assert(!before.region_owns(j, before.region_frame(i, k)));
            }
        }
        assert(self.pages_apart()) by {
            assert forall|i: int, j: int|
                0 <= i < self.regions().len() && 0 <= j < self.regions().len() && i != j implies apart(
                #[trigger] self.regions()[i],
                #[trigger] self.regions()[j],
            ) by {
                assert(apart(before.regions()[i], before.regions()[j]));
            }
        }
        assert(self.trampoline_ok()) by {
            if self.trampoline_frame() is Some {
                assert forall|i: int| 0 <= i < self.regions().len() implies !(
                #[trigger] self.regions()[i]).covers(TRAMPOLINE_VPN) by {
                    assert(!before.regions()[i].covers(TRAMPOLINE_VPN));
                }
            }
        }
        assert forall|q: u64| alloc0.is_allocated(q) implies alloc2.is_allocated(q) by {
            if am.frame_ppns().contains(q) {
                let l = choose|l: int| 0 <= l < am.frame_ppns().len() && am.frame_ppns()[l] == q;
                assert(alloc0.is_free(am.frame_ppns()[l]));
            }
        }
        self.lemma_owns_grown(before, Seq::<u64>::empty(), alloc0);
    }

    /// What holds of the regions once the page table changed under them in
    /// a way that keeps what their pages translate to, with no flag lost.
    proof fn lemma_table_changed(
        &self,
        before: Self,
        alloc0: BitmapFrameAllocator,
        alloc1: BitmapFrameAllocator,
    )
        requires
            before.wf(),
            before.backed_by(&alloc0),
            self.regions() == before.regions(),
            self.table().wf(),
            self.table().backed_by(&alloc1),
            self.table().ppns().len() >= before.table().ppns().len(),
            forall|i: int|
                0 <= i < before.table().ppns().len() ==> self.table().ppns()[i]
                    == before.table().ppns()[i],
            forall|i: int|
                before.table().ppns().len() <= i < self.table().ppns().len() ==> alloc0.is_free(
                    #[trigger] self.table().ppns()[i],
                ),
            forall|q: u64| alloc0.is_allocated(q) ==> alloc1.is_allocated(q),
            forall|v: VirtPageNum|
                before.table().translate_spec(v) is Some ==> {
                    let t = #[trigger] self.table().translate_spec(v);
                    &&& t is Some
                    &&& t.unwrap().0 == before.table().translate_spec(v).unwrap().0
                    &&& t.unwrap().1.has(before.table().translate_spec(v).unwrap().1)
                },
            forall|v: VirtPageNum|
                self.table().path_blocked(v) == before.table().path_blocked(v),
        ensures
            self.table().unblocked(),
            self.regions_ok(),
            self.frames_apart(),
            self.pages_apart(),
            self.backed_by(&alloc1),
            self.owned_count() - before.owned_count() == self.table().ppns().len()
                - before.table().ppns().len(),
            forall|q: u64| before.owns(q) ==> self.owns(q),
            forall|q: u64| self.owns(q) && !before.owns(q) ==> alloc0.is_free(q),
            self.table().root() == before.table().root(),
    {
        let pt0 = before.table();
        let pt1 = self.table();
        pt0.lemma_ppns();
        assert forall|v: VirtPageNum| !pt1.path_blocked(v) by {
            assert(!pt0.path_blocked(v));
        }
        assert(self.frames_apart()) by {
            reveal(MemorySet::frames_apart);
            assert forall|i: int, j: int, k: int|
                0 <= i < self.regions().len() && 0 <= j < self.regions().len() && i != j && 0 <= k
                    < self.regions()[i].frame_ppns().len() implies !#[trigger] self.region_owns(
                j,
                self.region_frame(i, k),
            ) by {
                assert(!before.region_owns(j, before.region_frame(i, k)));
            }
        }
        assert(self.pages_apart()) by {
            reveal(MemorySet::pages_apart);
            assert forall|i: int, j: int|
                0 <= i < self.regions().len() && 0 <= j < self.regions().len() && i != j implies apart(
                #[trigger] self.regions()[i],
                #[trigger] self.regions()[j],
            ) by {
                assert(apart(before.regions()[i], before.regions()[j]));
            }
        }
        reveal(MemorySet::regions_ok);
        assert forall|i: int| 0 <= i < self.regions().len() implies {
            let a = #[trigger] self.regions()[i];
            &&& a.inv()
            &&& a.fully_mapped()
            &&& a.mapped_in(&pt1)
            &&& a.disjoint_from(&pt1)
            &&& a.backed_by(&alloc1)
        } by {
            let a = before.regions()[i];
            assert(a.backed_by(&alloc0));
            assert forall|k: int| 0 <= k < a.mapped() implies {
                let t = #[trigger] pt1.translate_spec(a.page(k));
                &&& t is Some
                &&& t.unwrap().0.0 == a.backing(k)
                &&& t.unwrap().1.has(PTEFlags(a.perm().0 | 1))
            } by {
                let t0 = pt0.translate_spec(a.page(k));
                assert(t0 is Some);
                let t = pt1.translate_spec(a.page(k));
                lemma_flag_bits(t.unwrap().1.0, t0.unwrap().1.0, a.perm().0 | 1);
            }
            assert forall|k: int| 0 <= k < a.frame_ppns().len() implies !pt1.owns(
                #[trigger] a.frame_ppns()[k],
            ) && alloc1.is_allocated(a.frame_ppns()[k]) by {
                let q = a.frame_ppns()[k];
                assert(alloc0.is_allocated(q));
                assert(!pt0.owns(q));
                if pt1.owns(q) {
                    let m = choose|m: int| 0 <= m < pt1.ppns().len() && pt1.ppns()[m] == q;
                    if m < pt0.ppns().len() {
                        assert(pt0.ppns()[m] == q);
                    } else {
                        assert(alloc0.is_free(pt1.ppns()[m]));
                    }
                }
            }
        }
        self.lemma_owns_grown(before, Seq::<u64>::empty(), alloc0);
    }

    /// Maps the trampoline page to `frame`, readable and executable. The
    /// frame is shared: the address space does not own it.
    ///
    /// Fails with `AlreadyMapped` if the page translates already, and with
    /// `OutOfMemory` if the tables on the way cannot be made; the address
    /// space translates as before then.
    pub fn map_trampoline(&mut self, frame: PhysPageNum, alloc: &mut BitmapFrameAllocator) -> (r:
        Result<(), MapError>)
        requires
            old(self).wf(),
            old(alloc).wf(),
            old(self).backed_by(old(alloc)),
            frame.wf(),
        ensures
            final(self).wf(),
            final(alloc).wf(),
            final(self).backed_by(final(alloc)),
            final(alloc).start() == old(alloc).start(),
            final(alloc).end() == old(alloc).end(),
            final(self).regions() == old(self).regions(),
            final(self).table().root() == old(self).table().root(),
            final(alloc).frames_in_use() - old(alloc).frames_in_use() == final(self).owned_count()
                - old(self).owned_count(),
            forall|q: u64| old(alloc).is_allocated(q) ==> final(alloc).is_allocated(q),
            forall|q: u64| old(self).owns(q) ==> final(self).owns(q),
            forall|q: u64| final(self).owns(q) && !old(self).owns(q) ==> old(alloc).is_free(q),
            forall|v: VirtPageNum|
                !same_path(v.0, TRAMPOLINE_VPN) || r is Err ==> final(self).translate_spec(v)
                    == old(self).translate_spec(v),
            forall|va: u64| final(self).byte_at(va) == old(self).byte_at(va),
            final(self).owned_count() - old(self).owned_count() <= 2,
            match r {
                Ok(()) => {
                    &&& old(self).translate_spec(VirtPageNum(TRAMPOLINE_VPN)) is None
                    &&& final(self).trampoline_frame() == Some(frame)
                    &&& final(self).translate_spec(VirtPageNum(TRAMPOLINE_VPN)) == Some(
                        (frame, PTEFlags(0x0b)),
                    )
                },
                Err(e) => {
                    &&& final(self).trampoline_frame() == old(self).trampoline_frame()
                    &&& e == MapError::AlreadyMapped || e == MapError::OutOfMemory
                    &&& e == MapError::AlreadyMapped <==> old(self).translate_spec(
                        VirtPageNum(TRAMPOLINE_VPN),
                    ) is Some
                    &&& e == MapError::OutOfMemory
                        ==> old(alloc).free_count()
                        < old(self).table().missing_tables(VirtPageNum(TRAMPOLINE_VPN))
                        && old(alloc).free_count() < 2
                },
            },
    {
        let vpn = VirtPageNum(TRAMPOLINE_VPN);
        proof {
            if self.page_table.path_blocked(vpn) {
            }
            lemma_flag_bits(0x0a, 0, 0);
        }
        let r = self.page_table.map(vpn, frame, PTEFlags(0x0a), alloc);
        proof {
            assert(0x0au8 | 1 == 0x0b && 0x0bu8 & 0x0b == 0x0b) by (bit_vector);
        }
        match r {
            Ok(()) => {
                self.trampoline = Some(frame);
                proof {
                    self.lemma_trampoline_mapped(*old(self), *old(alloc), *alloc, frame);
                    self.lemma_bytes_kept(*old(self));
                }
                Ok(())
            },
            Err(e) => {
                proof {
                    self.lemma_trampoline_failed(*old(self), *old(alloc), *alloc);
                    old(self).page_table.lemma_missing_bound(vpn);
                    self.lemma_bytes_kept(*old(self));
                    old(alloc).lemma_allocated_finite();
                    if old(self).page_table.translate_spec(vpn) is Some {
                        old(self).page_table.lemma_translated(vpn);
                    }
                }
                Err(e)
            },
        }
    }

    /// The address space is in order once the trampoline is mapped.
    proof fn lemma_trampoline_mapped(
        &self,
        before: Self,
        alloc0: BitmapFrameAllocator,
        alloc1: BitmapFrameAllocator,
        frame: PhysPageNum,
    )
        requires
            before.wf(),
            before.backed_by(&alloc0),
            self.regions() == before.regions(),
            self.trampoline_frame() == Some(frame),
            self.table().wf(),
            self.table().backed_by(&alloc1),
            self.table().ppns().len() >= before.table().ppns().len(),
            forall|i: int|
                0 <= i < before.table().ppns().len() ==> self.table().ppns()[i]
                    == before.table().ppns()[i],
            forall|i: int|
                before.table().ppns().len() <= i < self.table().ppns().len() ==> alloc0.is_free(
                    #[trigger] self.table().ppns()[i],
                ),
            forall|q: u64|
                alloc1.is_allocated(q) == (alloc0.is_allocated(q) || self.table().owns(q)),
            forall|v: VirtPageNum|
                !same_path(v.0, TRAMPOLINE_VPN) ==> self.table().translate_spec(v)
                    == before.table().translate_spec(v),
            before.table().translate_spec(VirtPageNum(TRAMPOLINE_VPN)) is None,
            self.table().translate_spec(VirtPageNum(TRAMPOLINE_VPN)) == Some(
                (frame, PTEFlags(0x0b)),
            ),
            forall|v: VirtPageNum|
                self.table().path_blocked(v) == before.table().path_blocked(v),
        ensures
            self.wf(),
            self.backed_by(&alloc1),
            self.owned_count() - before.owned_count() == self.table().ppns().len()
                - before.table().ppns().len(),
            forall|q: u64| alloc0.is_allocated(q) ==> alloc1.is_allocated(q),
            forall|q: u64| before.owns(q) ==> self.owns(q),
            forall|q: u64| self.owns(q) && !before.owns(q) ==> alloc0.is_free(q),
            self.table().root() == before.table().root(),
    {
        let tv = VirtPageNum(TRAMPOLINE_VPN);
        assert forall|v: VirtPageNum| before.table().translate_spec(v) is Some implies {
            let t = #[trigger] self.table().translate_spec(v);
            &&& t is Some
            &&& t.unwrap().0 == before.table().translate_spec(v).unwrap().0
            &&& t.unwrap().1.has(before.table().translate_spec(v).unwrap().1)
        } by {
            if same_path(v.0, TRAMPOLINE_VPN) {
                before.table().lemma_same_path(v, tv);
            }
            lemma_flag_bits(before.table().translate_spec(v).unwrap().1.0, 0, 0);
        }
        self.lemma_table_changed(before, alloc0, alloc1);
        assert(self.covered()) by {
            reveal(MemorySet::covered);
            assert forall|v: VirtPageNum| (#[trigger] self.table().translate_spec(v))
                is Some implies self.maps(v) by {
                if !same_path(v.0, TRAMPOLINE_VPN) {
                    assert(before.table().translate_spec(v) is Some);
                    assert(before.maps(v));
                }
            }
        }
        assert(self.trampoline_ok()) by {
            reveal(MemorySet::trampoline_ok);
            reveal(MemorySet::regions_ok);
            lemma_flag_bits(0x0b, 0, 0);
            assert forall|i: int| 0 <= i < self.regions().len() implies !(
            #[trigger] self.regions()[i]).covers(TRAMPOLINE_VPN) by {
                let a = before.regions()[i];
                if a.covers(TRAMPOLINE_VPN) {
                    let k = TRAMPOLINE_VPN - a.start();
                    assert(a.page(k) == tv);
                    assert(a.mapped_in(&before.table()));
                    assert(before.table().translate_spec(a.page(k)) is Some);
                }
            }
        }
    }

    /// The address space is in order when the trampoline could not be mapped.
    proof fn lemma_trampoline_failed(
        &self,
        before: Self,
        alloc0: BitmapFrameAllocator,
        alloc1: BitmapFrameAllocator,
    )
        requires
            before.wf(),
            before.backed_by(&alloc0),
            self.regions() == before.regions(),
            self.trampoline_frame() == before.trampoline_frame(),
            self.table().wf(),
            self.table().backed_by(&alloc1),
            self.table().ppns().len() >= before.table().ppns().len(),
            forall|i: int|
                0 <= i < before.table().ppns().len() ==> self.table().ppns()[i]
                    == before.table().ppns()[i],
            forall|i: int|
                before.table().ppns().len() <= i < self.table().ppns().len() ==> alloc0.is_free(
                    #[trigger] self.table().ppns()[i],
                ),
            forall|q: u64|
                alloc1.is_allocated(q) == (alloc0.is_allocated(q) || self.table().owns(q)),
            forall|v: VirtPageNum|
                self.table().translate_spec(v) == before.table().translate_spec(v),
            forall|v: VirtPageNum|
                self.table().path_blocked(v) == before.table().path_blocked(v),
        ensures
            self.wf(),
            self.backed_by(&alloc1),
            self.owned_count() - before.owned_count() == self.table().ppns().len()
                - before.table().ppns().len(),
            forall|q: u64| alloc0.is_allocated(q) ==> alloc1.is_allocated(q),
            forall|q: u64| before.owns(q) ==> self.owns(q),
            forall|q: u64| self.owns(q) && !before.owns(q) ==> alloc0.is_free(q),
            self.table().root() == before.table().root(),
    {
        assert forall|v: VirtPageNum| before.table().translate_spec(v) is Some implies {
            let t = #[trigger] self.table().translate_spec(v);
            &&& t is Some
            &&& t.unwrap().0 == before.table().translate_spec(v).unwrap().0
            &&& t.unwrap().1.has(before.table().translate_spec(v).unwrap().1)
        } by {
            lemma_flag_bits(before.table().translate_spec(v).unwrap().1.0, 0, 0);
        }
        self.lemma_table_changed(before, alloc0, alloc1);
        assert(self.covered()) by {
            reveal(MemorySet::covered);
            assert forall|v: VirtPageNum| (#[trigger] self.table().translate_spec(v))
                is Some implies self.maps(v) by {
                assert(before.table().translate_spec(v) is Some);
                assert(before.maps(v));
            }
        }
        assert(self.trampoline_ok()) by {
            reveal(MemorySet::trampoline_ok);
            if self.trampoline_frame() is Some {
                assert forall|i: int| 0 <= i < self.regions().len() implies !(
                #[trigger] self.regions()[i]).covers(TRAMPOLINE_VPN) by {
                    assert(!before.regions()[i].covers(TRAMPOLINE_VPN));
                }
            }
        }
    }

    /// Adds the permissions `perm` to the flags of page `vpn`, which must
    /// translate. The frame that it maps to stays.
    ///
    /// Fails, and changes nothing, with `OutOfRange` if the page is the
    /// trampoline page, whose flags never change, and with `NotMapped` if
    /// the page does not translate.
    pub fn merge_permission(
        &mut self,
        vpn: VirtPageNum,
        perm: MapPermission,
        alloc: &BitmapFrameAllocator,
    ) -> (r: Result<(), MapError>)
        requires
            old(self).wf(),
            old(self).backed_by(alloc),
        ensures
            final(self).wf(),
            final(self).backed_by(alloc),
            final(self).regions() == old(self).regions(),
            final(self).trampoline_frame() == old(self).trampoline_frame(),
            final(self).table().ppns() == old(self).table().ppns(),
            final(self).owned_count() == old(self).owned_count(),
            forall|q: u64| final(self).owns(q) == old(self).owns(q),
            forall|v: VirtPageNum|
                !same_path(v.0, vpn.0) || r is Err
                    ==> final(self).translate_spec(v) == old(self).translate_spec(v),
            forall|va: u64| final(self).byte_at(va) == old(self).byte_at(va),
            r is Err ==> *final(self) == *old(self),
            match r {
                Ok(()) => {
                    &&& old(self).translate_spec(vpn) is Some
                    &&& final(self).translate_spec(vpn) == Some(
                        (
                            old(self).translate_spec(vpn).unwrap().0,
                            PTEFlags(old(self).translate_spec(vpn).unwrap().1.0 | perm.0 | 1),
                        ),
                    )
                },
                Err(e) => {
                    &&& e == MapError::OutOfRange || e == MapError::NotMapped
                    &&& e == MapError::OutOfRange <==> same_path(vpn.0, TRAMPOLINE_VPN)
                    &&& e == MapError::NotMapped ==> old(self).translate_spec(vpn) is None
                },
            },
            r is Ok <==> !same_path(vpn.0, TRAMPOLINE_VPN) && old(self).translate_spec(vpn)
                is Some,
    {
        let idx = vpn.indexes();
        if idx[0] == 511 && idx[1] == 511 && idx[2] == 511 {
            return Err(MapError::OutOfRange);
        }
        let found = self.page_table.translate(vpn);
        match found {
            None => Err(MapError::NotMapped),
            Some((_, flags)) => {
                let r = self.page_table.set_flags(vpn, PTEFlags(flags.0 | perm.0));
                proof {
                    assert(r is Ok);
                    self.lemma_merged(*old(self), *alloc, vpn, flags.0, perm.0);
                    self.lemma_bytes_kept(*old(self));
                }
                Ok(())
            },
        }
    }

    /// The address space is in order once a page has gained permissions.
    proof fn lemma_merged(
        &self,
        before: Self,
        alloc: BitmapFrameAllocator,
        vpn: VirtPageNum,
        flags: u8,
        perm: u8,
    )
        requires
            before.wf(),
            before.backed_by(&alloc),
            self.regions() == before.regions(),
            self.trampoline_frame() == before.trampoline_frame(),
            self.table().wf(),
            self.table().ppns() == before.table().ppns(),
            before.table().translate_spec(vpn) is Some,
            before.table().translate_spec(vpn).unwrap().1.0 == flags,
            !same_path(vpn.0, TRAMPOLINE_VPN),
            forall|v: VirtPageNum|
                !same_path(v.0, vpn.0) ==> self.table().translate_spec(v)
                    == before.table().translate_spec(v),
            self.table().translate_spec(vpn) == Some(
                (before.table().translate_spec(vpn).unwrap().0, PTEFlags((flags | perm) | 1)),
            ),
            forall|v: VirtPageNum|
                self.table().path_blocked(v) == before.table().path_blocked(v),
        ensures
            self.wf(),
            self.backed_by(&alloc),
            self.owned_count() == before.owned_count(),
            forall|q: u64| self.owns(q) == before.owns(q),
            self.table().translate_spec(vpn) == Some(
                (before.table().translate_spec(vpn).unwrap().0, PTEFlags(flags | perm | 1)),
            ),
    {
        let pt0 = before.table();
        let pt1 = self.table();
        assert forall|v: VirtPageNum| pt0.translate_spec(v) is Some implies {
            let t = #[trigger] pt1.translate_spec(v);
            &&& t is Some
            &&& t.unwrap().0 == pt0.translate_spec(v).unwrap().0
            &&& t.unwrap().1.has(pt0.translate_spec(v).unwrap().1)
        } by {
            if same_path(v.0, vpn.0) {
                pt0.lemma_same_path(v, vpn);
                pt1.lemma_same_path(v, vpn);
                lemma_flag_bits(flags, perm, 0);
                lemma_flag_bits(flags | perm, 1, 0);
                lemma_flag_bits((flags | perm) | 1, flags | perm, flags);
            } else {
                lemma_flag_bits(pt0.translate_spec(v).unwrap().1.0, 0, 0);
            }
        }
        assert(pt1.backed_by(&alloc));
        self.lemma_table_changed(before, alloc, alloc);
        assert(self.covered()) by {
            reveal(MemorySet::covered);
            assert forall|v: VirtPageNum| (#[trigger] pt1.translate_spec(v))
                is Some implies self.maps(v) by {
                if same_path(v.0, vpn.0) {
                    pt0.lemma_same_path(v, vpn);
                }
                assert(pt0.translate_spec(v) is Some);
                assert(before.maps(v));
            }
        }
        assert(self.trampoline_ok()) by {
            reveal(MemorySet::trampoline_ok);
            if self.trampoline_frame() is Some {
                let tv = VirtPageNum(TRAMPOLINE_VPN);
                let t0 = pt0.translate_spec(tv);
                let t = pt1.translate_spec(tv);
                assert(t == t0);
                assert forall|i: int| 0 <= i < self.regions().len() implies !(
                #[trigger] self.regions()[i]).covers(TRAMPOLINE_VPN) by {
                    assert(!before.regions()[i].covers(TRAMPOLINE_VPN));
                }
            }
        }
        assert forall|q: u64| self.owns(q) == before.owns(q) by {
            reveal(MemorySet::owns);
        }
    }

    /// Unmaps region `index`, gives its frames back and takes it out of
    /// the address space. The regions behind it move one place forward.
    ///
    /// Fails with `OutOfRange`, and changes nothing, if there is no region
    /// `index`.
    #[verifier::rlimit(100)]
    pub fn remove_area(&mut self, index: usize, alloc: &mut BitmapFrameAllocator) -> (r: Result<
        (),
        MapError,
    >)
        requires
            old(self).wf(),
            old(alloc).wf(),
            old(self).backed_by(old(alloc)),
        ensures
            final(self).wf(),
            final(alloc).wf(),
            final(self).backed_by(final(alloc)),
            final(alloc).start() == old(alloc).start(),
            final(alloc).end() == old(alloc).end(),
            final(self).trampoline_frame() == old(self).trampoline_frame(),
            final(self).table().ppns() == old(self).table().ppns(),
            forall|q: u64| final(alloc).is_allocated(q) ==> old(alloc).is_allocated(q),
            forall|q: u64| final(self).owns(q) ==> old(self).owns(q),
            forall|q: u64|
                old(alloc).is_allocated(q) && !old(self).owns(q) ==> final(alloc).is_allocated(q),
            forall|q: u64|
                old(self).owns(q) && !final(self).owns(q) ==> !final(alloc).is_allocated(q),
            match r {
                Ok(()) => {
                    &&& index < old(self).regions().len()
                    &&& final(self).regions() == old(self).regions().remove(index as int)
                    &&& final(alloc).frames_in_use() + old(self).regions()[index as int].frame_ppns().len()
                        == old(alloc).frames_in_use()
                    &&& final(self).owned_count() + old(self).regions()[index as int].frame_ppns().len()
                        == old(self).owned_count()
                    &&& forall|k: int|
                        0 <= k < old(self).regions()[index as int].mapped()
                            ==> final(self).translate_spec(#[trigger] old(self).regions()[index as int].page(k))
                            is None
                    &&& forall|k: int|
                        0 <= k < old(self).regions()[index as int].frame_ppns().len()
                            ==> !final(alloc).is_allocated(#[trigger] old(self).regions()[index as int].frame_ppns()[k])
                    &&& forall|v: VirtPageNum|
                        !old(self).regions()[index as int].touches(
                            0,
                            old(self).regions()[index as int].mapped(),
                            v,
                        ) ==> final(self).translate_spec(v) == old(self).translate_spec(v)
                },
                Err(e) => {
                    &&& e == MapError::OutOfRange
                    &&& index >= old(self).regions().len()
                    &&& *final(self) == *old(self)
                    &&& *final(alloc) == *old(alloc)
                },
            },
    {
        if index >= self.areas.len() {
            return Err(MapError::OutOfRange);
        }
        let mut area = self.areas.remove(index);
        let ghost a0 = area;
        proof {
            reveal(MemorySet::regions_ok);
            assert(old(self).regions()[index as int] == area);
            assert(area.attached(&self.page_table, alloc));
        }
        let u = area.unmap(&mut self.page_table, alloc);
        proof {
            assert(u is Ok);
            self.lemma_removed(*old(self), index as int, area, *old(alloc), *alloc);
        }
        Ok(())
    }

    /// What `remove_area` knows once the region is unmapped.
    pub open spec fn removed_pre(
        &self,
        before: Self,
        index: int,
        au: MapArea,
        alloc0: BitmapFrameAllocator,
        alloc1: BitmapFrameAllocator,
    ) -> bool {
        let a0 = before.regions()[index];
        &&& before.wf()
        &&& alloc0.wf()
        &&& before.backed_by(&alloc0)
        &&& 0 <= index < before.regions().len()
        &&& self.regions() == before.regions().remove(index)
        &&& self.trampoline_frame() == before.trampoline_frame()
        &&& self.table().wf()
        &&& alloc1.wf()
        &&& self.table().backed_by(&alloc1)
        &&& self.table().ppns() == before.table().ppns()
        &&& alloc1.start() == alloc0.start()
        &&& alloc1.end() == alloc0.end()
        &&& forall|v: VirtPageNum|
            !a0.touches(0, a0.mapped(), v) ==> self.table().translate_spec(v)
                == before.table().translate_spec(v)
        &&& forall|k: int|
            0 <= k < a0.mapped() ==> self.table().translate_spec(#[trigger] a0.page(k)) is None
        &&& forall|v: VirtPageNum|
            self.table().path_blocked(v) == before.table().path_blocked(v)
        &&& forall|q: u64|
            alloc1.is_allocated(q) == (alloc0.is_allocated(q) && !a0.frame_ppns().skip(0).contains(
                q,
            ))
        &&& alloc1.frames_in_use() + a0.frame_ppns().len() == alloc0.frames_in_use()
    }

    /// The address space is in order once a region has left it.
    #[verifier::rlimit(100)]
    proof fn lemma_removed(
        &self,
        before: Self,
        index: int,
        au: MapArea,
        alloc0: BitmapFrameAllocator,
        alloc1: BitmapFrameAllocator,
    )
        requires
            self.removed_pre(before, index, au, alloc0, alloc1),
        ensures
            self.wf(),
            self.backed_by(&alloc1),
            self.owned_count() + before.regions()[index].frame_ppns().len()
                == before.owned_count(),
            forall|q: u64| alloc1.is_allocated(q) ==> alloc0.is_allocated(q),
            forall|q: u64| self.owns(q) ==> before.owns(q),
            forall|q: u64| alloc0.is_allocated(q) && !before.owns(q) ==> alloc1.is_allocated(q),
            forall|q: u64| before.owns(q) && !self.owns(q) ==> !alloc1.is_allocated(q),
            forall|k: int|
                0 <= k < before.regions()[index].frame_ppns().len() ==> !alloc1.is_allocated(
                    #[trigger] before.regions()[index].frame_ppns()[k],
                ),
    {
        let a0 = before.regions()[index];
        assert(a0.frame_ppns().skip(0) =~= a0.frame_ppns());
        self.lemma_removed_regions(before, index, au, alloc0, alloc1);
        self.lemma_removed_apart(before, index, au, alloc0, alloc1);
        self.lemma_removed_trampoline(before, index, au, alloc0, alloc1);
        self.lemma_removed_cover(before, index, au, alloc0, alloc1);
        lemma_frames_in_remove(before.regions(), index);
        assert forall|v: VirtPageNum| !self.table().path_blocked(v) by {
            assert(!before.table().path_blocked(v));
        }
        assert forall|q: u64| self.owns(q) implies before.owns(q) by {
            reveal(MemorySet::owns);
            if !self.table().owns(q) {
                let j = choose|j: int|
                    0 <= j < self.regions().len() && #[trigger] self.region_owns(j, q);
                let j0 = if j < index {
                    j
                } else {
                    j + 1
                };
                assert(before.region_owns(j0, q));
            }
        }
        assert forall|q: u64| before.owns(q) && !self.owns(q) implies !alloc1.is_allocated(q) by {
            reveal(MemorySet::owns);
            if !before.table().owns(q) {
                let j = choose|j: int|
                    0 <= j < before.regions().len() && #[trigger] before.region_owns(j, q);
                if j < index {
                    assert(self.regions()[j] == before.regions()[j]);
                    assert(self.region_owns(j, q));
                } else if j > index {
                    assert(self.regions()[j - 1] == before.regions()[j]);
                    assert(self.region_owns(j - 1, q));
                }
            }
        }
        assert forall|q: u64|
            alloc0.is_allocated(q) && !before.owns(q) implies alloc1.is_allocated(q) by {
            reveal(MemorySet::owns);
            if a0.frame_ppns().contains(q) {
                assert(before.region_owns(index, q));
            }
        }
        assert forall|k: int|
            0 <= k < before.regions()[index].frame_ppns().len() implies !alloc1.is_allocated(
            #[trigger] before.regions()[index].frame_ppns()[k],
        ) by {
            assert(a0.frame_ppns().contains(a0.frame_ppns()[k]));
        }
    }

    /// Without the region, every region is still in order and backed.
    #[verifier::rlimit(100)]
    proof fn lemma_removed_regions(
        &self,
        before: Self,
        index: int,
        au: MapArea,
        alloc0: BitmapFrameAllocator,
        alloc1: BitmapFrameAllocator,
    )
        requires
            self.removed_pre(before, index, au, alloc0, alloc1),
        ensures
            self.regions_ok(),
            self.backed_by(&alloc1),
    {
        reveal(MemorySet::regions_ok);
        reveal(MemorySet::frames_apart);
        reveal(MemorySet::pages_apart);
        let a0 = before.regions()[index];
        let pt0 = before.table();
        let pt1 = self.table();
        assert(a0.frame_ppns().skip(0) =~= a0.frame_ppns());
        assert forall|i: int| 0 <= i < self.regions().len() implies {
            let a = #[trigger] self.regions()[i];
            &&& a.inv()
            &&& a.fully_mapped()
            &&& a.mapped_in(&pt1)
            &&& a.disjoint_from(&pt1)
            &&& a.backed_by(&alloc1)
        } by {
            let i0 = if i < index {
                i
            } else {
                i + 1
            };
            let a = before.regions()[i0];
            assert(self.regions()[i] == a);
            assert(a.backed_by(&alloc0));
            assert(apart(before.regions()[i0], before.regions()[index]));
            assert forall|k: int| 0 <= k < a.mapped() implies {
                let t = #[trigger] pt1.translate_spec(a.page(k));
                &&& t is Some
                &&& t.unwrap().0.0 == a.backing(k)
                &&& t.unwrap().1.has(PTEFlags(a.perm().0 | 1))
            } by {
                let v = a.page(k);
                let t0 = pt0.translate_spec(v);
                assert(t0 is Some);
                if a0.touches(0, a0.mapped(), v) {
                    let l = choose|l: int|
                        0 <= l < a0.mapped() && same_path(v.0, #[trigger] a0.page(l).0);
                    a.lemma_pages(k, k);
                    a0.lemma_pages(l, l);
                    lemma_canonical_paths(v.0, a0.page(l).0);
                }
            }
            assert forall|k: int| 0 <= k < a.frame_ppns().len() implies alloc1.is_allocated(
                #[trigger] a.frame_ppns()[k],
            ) by {
                let q = a.frame_ppns()[k];
                assert(alloc0.is_allocated(q));
                assert(!before.region_owns(index, before.region_frame(i0, k)));
            }
        }
    }

    /// Without the region, still no frame and no page belongs to two owners.
    proof fn lemma_removed_apart(
        &self,
        before: Self,
        index: int,
        au: MapArea,
        alloc0: BitmapFrameAllocator,
        alloc1: BitmapFrameAllocator,
    )
        requires
            self.removed_pre(before, index, au, alloc0, alloc1),
        ensures
            self.frames_apart(),
            self.pages_apart(),
    {
        reveal(MemorySet::frames_apart);
        reveal(MemorySet::pages_apart);
        assert forall|i: int, j: int, k: int|
            0 <= i < self.regions().len() && 0 <= j < self.regions().len() && i != j && 0 <= k
                < self.regions()[i].frame_ppns().len() implies !#[trigger] self.region_owns(
            j,
            self.region_frame(i, k),
        ) by {
            let i0 = if i < index {
                i
            } else {
                i + 1
            };
            let j0 = if j < index {
                j
            } else {
                j + 1
            };
            assert(!before.region_owns(j0, before.region_frame(i0, k)));
        }
        assert forall|i: int, j: int|
            0 <= i < self.regions().len() && 0 <= j < self.regions().len() && i != j implies apart(
            #[trigger] self.regions()[i],
            #[trigger] self.regions()[j],
        ) by {
            let i0 = if i < index {
                i
            } else {
                i + 1
            };
            let j0 = if j < index {
                j
            } else {
                j + 1
            };
            assert(apart(before.regions()[i0], before.regions()[j0]));
        }
    }

    /// Without the region, the regions and the trampoline still cover
    /// exactly the pages that translate.
    proof fn lemma_removed_cover(
        &self,
        before: Self,
        index: int,
        au: MapArea,
        alloc0: BitmapFrameAllocator,
        alloc1: BitmapFrameAllocator,
    )
        requires
            self.removed_pre(before, index, au, alloc0, alloc1),
        ensures
            self.covered(),
    {
        reveal(MemorySet::covered);
        let a0 = before.regions()[index];
        assert forall|v: VirtPageNum| (#[trigger] self.table().translate_spec(v))
            is Some implies self.maps(v) by {
            if a0.touches(0, a0.mapped(), v) {
                let l = choose|l: int|
                    0 <= l < a0.mapped() && same_path(v.0, #[trigger] a0.page(l).0);
                self.table().lemma_same_path(v, a0.page(l));
                assert(self.table().translate_spec(a0.page(l)) is None);
            } else {
                assert(before.table().translate_spec(v) is Some);
                assert(before.maps(v));
                if !(before.trampoline_frame() is Some && same_path(v.0, TRAMPOLINE_VPN)) {
                    let (i, k) = choose|i: int, k: int|
                        0 <= i < before.regions().len() && 0 <= k < before.regions()[i].mapped()
                            && same_path(v.0, #[trigger] before.regions()[i].page(k).0);
                    if i == index {
                        assert(same_path(v.0, a0.page(k).0));
                    } else {
                        let j = if i < index {
                            i
                        } else {
                            i - 1
                        };
                        assert(self.regions()[j] == before.regions()[i]);
                        assert(same_path(v.0, self.regions()[j].page(k).0));
                    }
                }
            }
        }
    }

    /// Without the region, the trampoline is mapped as before.
    proof fn lemma_removed_trampoline(
        &self,
        before: Self,
        index: int,
        au: MapArea,
        alloc0: BitmapFrameAllocator,
        alloc1: BitmapFrameAllocator,
    )
        requires
            self.removed_pre(before, index, au, alloc0, alloc1),
        ensures
            self.trampoline_ok(),
    {
        reveal(MemorySet::trampoline_ok);
        reveal(MemorySet::regions_ok);
        let a0 = before.regions()[index];
        if self.trampoline_frame() is Some {
            let tv = VirtPageNum(TRAMPOLINE_VPN);
            assert(!a0.covers(TRAMPOLINE_VPN));
            if a0.touches(0, a0.mapped(), tv) {
                let l = choose|l: int|
                    0 <= l < a0.mapped() && same_path(tv.0, #[trigger] a0.page(l).0);
                a0.lemma_pages(l, l);
                lemma_canonical_paths(tv.0, a0.page(l).0);
            }
            assert(self.table().translate_spec(tv) == before.table().translate_spec(tv));
            assert forall|i: int| 0 <= i < self.regions().len() implies !(
            #[trigger] self.regions()[i]).covers(TRAMPOLINE_VPN) by {
                let i0 = if i < index {
                    i
                } else {
                    i + 1
                };
                assert(!before.regions()[i0].covers(TRAMPOLINE_VPN));
            }
        }
    }

    /// Gives every frame of the address space back: the pages of its
    /// regions, its tables and the root. The trampoline frame, which it
    /// does not own, stays in use.
    pub fn release(self, alloc: &mut BitmapFrameAllocator)
        requires
            self.wf(),
            old(alloc).wf(),
            self.backed_by(old(alloc)),
        ensures
            final(alloc).wf(),
            final(alloc).start() == old(alloc).start(),
            final(alloc).end() == old(alloc).end(),
            final(alloc).frames_in_use() + self.owned_count() == old(alloc).frames_in_use(),
            self.owned_count() >= 1,
            forall|q: u64| final(alloc).is_allocated(q) ==> old(alloc).is_allocated(q),
            forall|q: u64| self.owns(q) ==> !final(alloc).is_allocated(q),
            forall|q: u64|
                old(alloc).is_allocated(q) && !self.owns(q) ==> final(alloc).is_allocated(q),
    {
        let mut ms = self;
        while ms.areas.len() > 0
            invariant
                ms.wf(),
                alloc.wf(),
                ms.backed_by(alloc),
                alloc.start() == old(alloc).start(),
                alloc.end() == old(alloc).end(),
                ms.table().ppns() == self.table().ppns(),
                alloc.frames_in_use() + self.owned_count() == old(alloc).frames_in_use()
                    + ms.owned_count(),
                forall|q: u64| alloc.is_allocated(q) ==> old(alloc).is_allocated(q),
                forall|q: u64| ms.owns(q) ==> self.owns(q),
                forall|q: u64| self.owns(q) && !ms.owns(q) ==> !alloc.is_allocated(q),
                forall|q: u64|
                    old(alloc).is_allocated(q) && !self.owns(q) ==> alloc.is_allocated(q),
            decreases ms.areas@.len(),
        {
            let last = ms.areas.len() - 1;
            let r = ms.remove_area(last, alloc);
            assert(r is Ok);
        }
        let root = ms.page_table.as_ppn();
        let ghost mid = *alloc;
        let ghost ms_end = ms;
        ms.page_table.dealloc_intermediate(alloc);
        let ghost mid2 = *alloc;
        alloc.dealloc(root);
        proof {
            self.table().lemma_ppns();
            assert(frames_in(ms_end.regions()) == 0);
            assert(ms_end.page_table.ppns()[0] == root.0);
            assert(ms_end.page_table.owns(root.0));
            assert(mid.is_allocated(ms_end.page_table.ppns()[0]));
            assert(mid2.is_allocated(root.0));
            assert forall|q: u64| ms_end.owns(q) == ms_end.page_table.owns(q) by {
                reveal(MemorySet::owns);
            }
            assert forall|q: u64| self.owns(q) implies !alloc.is_allocated(q) by {
                if ms_end.owns(q) {
                    assert(ms_end.page_table.owns(q));
                    assert(mid2.is_allocated(q) == (mid.is_allocated(q) && (
                    !ms_end.page_table.owns(q) || q == root.0)));
                } else {
                    assert(!mid.is_allocated(q));
                    assert(mid2.is_allocated(q) == (mid.is_allocated(q) && (
                    !ms_end.page_table.owns(q) || q == root.0)));
                }
            }
            assert forall|q: u64|
                old(alloc).is_allocated(q) && !self.owns(q) implies alloc.is_allocated(q) by {
                assert(mid.is_allocated(q));
                assert(!ms_end.owns(q));
                assert(mid2.is_allocated(q) == (mid.is_allocated(q) && (
                !ms_end.page_table.owns(q) || q == root.0)));
                assert(self.owns(root.0));
            }
            assert forall|q: u64| alloc.is_allocated(q) implies old(alloc).is_allocated(q) by {
                assert(mid2.is_allocated(q) == (mid.is_allocated(q) && (
                !ms_end.page_table.owns(q) || q == root.0)));
            }
        }
    }

    /// Whether region `i` is framed and page `vpn` is one of its mapped pages.
    pub open spec fn holds(&self, i: int, vpn: u64) -> bool {
        &&& 0 <= i < self.regions().len()
        &&& self.regions()[i].kind() == MapType::Framed
        &&& self.regions()[i].covers(vpn)
    }

    /// The framed region that page `vpn` belongs to.
    pub open spec fn holder(&self, vpn: u64) -> Option<int> {
        if exists|i: int| self.holds(i, vpn) {
            Some(choose|i: int| self.holds(i, vpn))
        } else {
            None
        }
    }

    /// The byte at address `va`, if the address lies in a framed region.
    pub open spec fn byte_at(&self, va: u64) -> Option<u8> {
        match self.holder(va / 4096) {
            Some(i) => Some(
                self.regions()[i].byte((va / 4096 - self.regions()[i].start()) * 4096 + va % 4096),
            ),
            None => None,
        }
    }

    /// A page belongs to one region at most.
    pub proof fn lemma_holder(&self, i: int, vpn: u64)
        requires
            self.wf(),
            self.holds(i, vpn),
        ensures
            self.holder(vpn) == Some(i),
    {
        reveal(MemorySet::pages_apart);
        let j = choose|j: int| self.holds(j, vpn);
        if j != i {
            assert(apart(self.regions()[i], self.regions()[j]));
        }
    }

    /// The framed region that page `vpn` belongs to.
    pub fn find_area(&self, vpn: VirtPageNum) -> (r: Option<usize>)
        requires
            self.wf(),
        ensures
            match r {
                Some(i) => self.holder(vpn.0) == Some(i as int) && self.holds(i as int, vpn.0),
                None => self.holder(vpn.0) is None,
            },
    {
        let mut i: usize = 0;
        while i < self.areas.len()
            invariant
                self.wf(),
                i <= self.areas@.len(),
                forall|j: int| 0 <= j < i ==> !self.holds(j, vpn.0),
            decreases self.areas@.len() - i,
        {
            let a = &self.areas[i];
            let s = a.vpn_range().start.0;
            if a.map_type() == MapType::Framed && s <= vpn.0 && vpn.0 - s < a.mapped_pages() {
                proof {
                    self.lemma_holder(i as int, vpn.0);
                }
                return Some(i);
            }
            i += 1;
        }
        None
    }

    /// The byte at address `va`, if the address lies in a framed region.
    pub fn read_byte(&self, va: u64) -> (r: Option<u8>)
        requires
            self.wf(),
        ensures
            r == self.byte_at(va),
    {
        let vpn = VirtAddr::new(va).page_number();
        let off = VirtAddr::new(va).page_offset();
        match self.find_area(vpn) {
            None => None,
            Some(i) => {
                let a = &self.areas[i];
                let k = vpn.0 - a.vpn_range().start.0;
                proof {
                    reveal(MemorySet::regions_ok);
                    assert(self.regions()[i as int].inv());
                }
                Some(a.get_byte(k, off))
            },
        }
    }

    /// Writes `value` at address `va`, if the address lies in a framed
    /// region, and says whether it did.
    pub fn write_byte(&mut self, va: u64, value: u8) -> (r: bool)
        requires
            old(self).wf(),
        ensures
            final(self).wf(),
            final(self).table() == old(self).table(),
            final(self).trampoline_frame() == old(self).trampoline_frame(),
            final(self).regions().len() == old(self).regions().len(),
            forall|i: int|
                0 <= i < old(self).regions().len() ==> (#[trigger] final(self).regions()[i]).same_shape(
                    old(self).regions()[i],
                ),
            r == (old(self).byte_at(va) is Some),
            forall|a: u64|
                #[trigger] final(self).byte_at(a) == (if a == va && r {
                    Some(value)
                } else {
                    old(self).byte_at(a)
                }),
    {
        let vpn = VirtAddr::new(va).page_number();
        let off = VirtAddr::new(va).page_offset();
        match self.find_area(vpn) {
            None => false,
            Some(i) => {
                let k = vpn.0 - self.areas[i].vpn_range().start.0;
                proof {
                    reveal(MemorySet::regions_ok);
                    assert(self.regions()[i as int].inv());
                }
                self.areas[i].set_byte(k, off, value);
                proof {
                    self.lemma_data_changed(*old(self));
                    self.lemma_byte_written(*old(self), i as int, va, value);
                }
                true
            },
        }
    }

    /// An address space whose regions only changed the bytes they hold is
    /// as well formed as before, and owns what it owned.
    pub proof fn lemma_data_changed(&self, before: Self)
        requires
            before.wf(),
            self.table() == before.table(),
            self.trampoline_frame() == before.trampoline_frame(),
            self.regions().len() == before.regions().len(),
            forall|i: int|
                0 <= i < before.regions().len() ==> (#[trigger] self.regions()[i]).same_shape(
                    before.regions()[i],
                ),
        ensures
            self.wf(),
            self.owned_count() == before.owned_count(),
            forall|q: u64| self.owns(q) == before.owns(q),
            forall|alloc: BitmapFrameAllocator|
                before.backed_by(&alloc) ==> #[trigger] self.backed_by(&alloc),
            forall|v: u64| self.holder(v) == before.holder(v),
    {
        reveal(MemorySet::regions_ok);
        reveal(MemorySet::frames_apart);
        reveal(MemorySet::pages_apart);
        reveal(MemorySet::trampoline_ok);
        reveal(MemorySet::owns);
        let pt = self.table();
        assert(self.covered()) by {
            reveal(MemorySet::covered);
            assert forall|v: VirtPageNum| (#[trigger] self.table().translate_spec(v))
                is Some implies self.maps(v) by {
                assert(before.maps(v));
                if !(before.trampoline_frame() is Some && same_path(v.0, TRAMPOLINE_VPN)) {
                    let (i, k) = choose|i: int, k: int|
                        0 <= i < before.regions().len() && 0 <= k < before.regions()[i].mapped()
                            && same_path(v.0, #[trigger] before.regions()[i].page(k).0);
                    assert(self.regions()[i].same_shape(before.regions()[i]));
                    assert(same_path(v.0, self.regions()[i].page(k).0));
                }
            }
        }
        assert forall|i: int| 0 <= i < self.regions().len() implies {
            let a = #[trigger] self.regions()[i];
            &&& a.inv()
            &&& a.fully_mapped()
            &&& a.mapped_in(&pt)
            &&& a.disjoint_from(&pt)
        } by {
            let a = self.regions()[i];
            let b = before.regions()[i];
            assert(a.same_shape(b));
            assert forall|k: int| 0 <= k < a.mapped() implies {
                let t = #[trigger] pt.translate_spec(a.page(k));
                &&& t is Some
                &&& t.unwrap().0.0 == a.backing(k)
                &&& t.unwrap().1.has(PTEFlags(a.perm().0 | 1))
            } by {
                assert(a.page(k) == b.page(k));
                assert(a.backing(k) == b.backing(k));
                let t = pt.translate_spec(b.page(k));
            }
        }
        assert forall|i: int, j: int, k: int|
            0 <= i < self.regions().len() && 0 <= j < self.regions().len() && i != j && 0 <= k
                < self.regions()[i].frame_ppns().len() implies !#[trigger] self.region_owns(
            j,
            self.region_frame(i, k),
        ) by {
            assert(self.regions()[i].same_shape(before.regions()[i]));
            assert(self.regions()[j].same_shape(before.regions()[j]));
            assert(!before.region_owns(j, before.region_frame(i, k)));
        }
        assert forall|i: int, j: int|
            0 <= i < self.regions().len() && 0 <= j < self.regions().len() && i != j implies apart(
            #[trigger] self.regions()[i],
            #[trigger] self.regions()[j],
        ) by {
            assert(self.regions()[i].same_shape(before.regions()[i]));
            assert(self.regions()[j].same_shape(before.regions()[j]));
            assert(apart(before.regions()[i], before.regions()[j]));
        }
        if self.trampoline_frame() is Some {
            assert forall|i: int| 0 <= i < self.regions().len() implies !(
            #[trigger] self.regions()[i]).covers(TRAMPOLINE_VPN) by {
                assert(self.regions()[i].same_shape(before.regions()[i]));
                assert(!before.regions()[i].covers(TRAMPOLINE_VPN));
            }
        }
        lemma_frames_in_shape(self.regions(), before.regions());
        assert forall|q: u64| self.owns(q) == before.owns(q) by {
            if self.owns(q) && !self.table().owns(q) {
                let j = choose|j: int|
                    0 <= j < self.regions().len() && #[trigger] self.region_owns(j, q);
                assert(self.regions()[j].same_shape(before.regions()[j]));
                assert(before.region_owns(j, q));
            }
            if before.owns(q) && !before.table().owns(q) {
                let j = choose|j: int|
                    0 <= j < before.regions().len() && #[trigger] before.region_owns(j, q);
                assert(self.regions()[j].same_shape(before.regions()[j]));
                assert(self.region_owns(j, q));
            }
        }
        assert forall|alloc: BitmapFrameAllocator|
            before.backed_by(&alloc) implies #[trigger] self.backed_by(&alloc) by {
            assert forall|i: int| 0 <= i < self.regions().len() implies (
            #[trigger] self.regions()[i]).backed_by(&alloc) by {
                assert(self.regions()[i].same_shape(before.regions()[i]));
                assert(before.regions()[i].backed_by(&alloc));
            }
        }
        assert forall|v: u64| self.holder(v) == before.holder(v) by {
            assert forall|i: int| self.holds(i, v) == before.holds(i, v) by {
                if 0 <= i < self.regions().len() {
                    assert(self.regions()[i].same_shape(before.regions()[i]));
                }
            }
        }
    }

    /// The bytes of the address space once one byte was written.
    proof fn lemma_byte_written(&self, before: Self, i: int, va: u64, value: u8)
        requires
            before.wf(),
            self.wf(),
            before.holds(i, va / 4096),
            self.regions().len() == before.regions().len(),
            forall|v: u64| self.holder(v) == before.holder(v),
            forall|j: int|
                0 <= j < before.regions().len() && j != i ==> self.regions()[j]
                    == before.regions()[j],
            self.regions()[i].same_shape(before.regions()[i]),
            forall|b: int|
                0 <= b < before.regions()[i].mapped() * 4096 ==> #[trigger] self.regions()[i].byte(b)
                    == (if b == (va / 4096 - before.regions()[i].start()) * 4096 + va % 4096 {
                    value
                } else {
                    before.regions()[i].byte(b)
                }),
        ensures
            before.byte_at(va) is Some,
            forall|a: u64|
                #[trigger] self.byte_at(a) == (if a == va {
                    Some(value)
                } else {
                    before.byte_at(a)
                }),
    {
        before.lemma_holder(i, va / 4096);
        assert forall|a: u64| #[trigger] self.byte_at(a) == (if a == va {
            Some(value)
        } else {
            before.byte_at(a)
        }) by {
            match before.holder(a / 4096) {
                None => {},
                Some(j) => {
                    assert(before.holds(j, a / 4096));
                    if j == i {
                        let r = before.regions()[i];
                        let b = (a / 4096 - r.start()) * 4096 + a % 4096;
                        assert(0 <= b < r.mapped() * 4096);
                        if a != va {
                            assert(b != (va / 4096 - r.start()) * 4096 + va % 4096);
                        }
                    }
                },
            }
        }
    }

    /// Writes `data` at the addresses from `va` on, if all of them lie in
    /// framed regions, and says whether it did. Nothing is written otherwise.
    pub fn write_bytes(&mut self, va: u64, data: &[u8]) -> (r: bool)
        requires
            old(self).wf(),
        ensures
            final(self).wf(),
            final(self).table() == old(self).table(),
            final(self).trampoline_frame() == old(self).trampoline_frame(),
            final(self).regions().len() == old(self).regions().len(),
            forall|i: int|
                0 <= i < old(self).regions().len() ==> (#[trigger] final(self).regions()[i]).same_shape(
                    old(self).regions()[i],
                ),
            r == (va + data@.len() <= 0x1_0000_0000_0000_0000 && forall|a: u64|
                va <= a < va + data@.len() ==> old(self).byte_at(a) is Some),
            forall|a: u64|
                #[trigger] final(self).byte_at(a) == (if r && va <= a < va + data@.len() {
                    Some(data@[a - va])
                } else {
                    old(self).byte_at(a)
                }),
    {
        let n = data.len();
        if (va as u128) + (n as u128) > 0x1_0000_0000_0000_0000u128 {
            return false;
        }
        let mut i: usize = 0;
        while i < n
            invariant
                i <= n,
                n == data@.len(),
                va + n <= 0x1_0000_0000_0000_0000,
                self.wf(),
                *self == *old(self),
                forall|a: u64| va <= a < va + i ==> old(self).byte_at(a) is Some,
            decreases n - i,
        {
            if self.read_byte(va + i as u64).is_none() {
                return false;
            }
            i += 1;
        }
        let mut i: usize = 0;
        while i < n
            invariant
                i <= n,
                n == data@.len(),
                va + n <= 0x1_0000_0000_0000_0000,
                self.wf(),
                old(self).wf(),
                self.table() == old(self).table(),
                self.trampoline_frame() == old(self).trampoline_frame(),
                self.regions().len() == old(self).regions().len(),
                forall|k: int|
                    0 <= k < old(self).regions().len() ==> (#[trigger] self.regions()[k]).same_shape(
                        old(self).regions()[k],
                    ),
                forall|a: u64| va <= a < va + n ==> old(self).byte_at(a) is Some,
                forall|a: u64|
                    #[trigger] self.byte_at(a) == (if va <= a < va + i {
                        Some(data@[a - va])
                    } else {
                        old(self).byte_at(a)
                    }),
            decreases n - i,
        {
            let ghost prev = *self;
            let w = self.write_byte(va + i as u64, data[i]);
            proof {
                assert(old(self).byte_at((va + i) as u64) is Some);
                assert(prev.byte_at((va + i) as u64) is Some);
                assert(w);
                assert forall|k: int| 0 <= k < old(self).regions().len() implies (
                #[trigger] self.regions()[k]).same_shape(old(self).regions()[k]) by {
                    assert(self.regions()[k].same_shape(prev.regions()[k]));
                    assert(prev.regions()[k].same_shape(old(self).regions()[k]));
                }
                assert forall|a: u64| #[trigger] self.byte_at(a) == (if va <= a < va + i + 1 {
                    Some(data@[a - va])
                } else {
                    old(self).byte_at(a)
                }) by {
                    let x = prev.byte_at(a);
                }
            }
            i += 1;
        }
        true
    }

    /// The bytes at the `len` addresses from `va` on, if all of them lie in
    /// framed regions.
    pub fn read_bytes(&self, va: u64, len: usize) -> (r: Option<Vec<u8>>)
        requires
            self.wf(),
        ensures
            r is Some == (va + len <= 0x1_0000_0000_0000_0000 && forall|a: u64|
                va <= a < va + len ==> self.byte_at(a) is Some),
            r is Some ==> r.unwrap()@.len() == len && forall|a: u64|
                va <= a < va + len ==> #[trigger] self.byte_at(a) == Some(r.unwrap()@[a - va]),
    {
        if (va as u128) + (len as u128) > 0x1_0000_0000_0000_0000u128 {
            return None;
        }
        let mut out: Vec<u8> = Vec::new();
        let mut i: usize = 0;
        while i < len
            invariant
                i <= len,
                va + len <= 0x1_0000_0000_0000_0000,
                self.wf(),
                out@.len() == i,
                forall|a: u64| va <= a < va + i ==> #[trigger] self.byte_at(a) == Some(out@[a - va]),
            decreases len - i,
        {
            match self.read_byte(va + i as u64) {
                None => {
                    return None;
                },
                Some(b) => {
                    out.push(b);
                },
            }
            i += 1;
        }
        Some(out)
    }

    /// Every page of every region translates to the frame that the region
    /// records for it (for an identical region: the frame of the same
    /// number), with at least the permissions of the region and the
    /// valid flag.
    pub proof fn lemma_region_translates(&self, i: int, k: int)
        requires
            self.wf(),
            0 <= i < self.regions().len(),
            0 <= k < self.regions()[i].page_count(),
        ensures
            self.translate_spec(self.regions()[i].page(k)) is Some,
            self.translate_spec(self.regions()[i].page(k)).unwrap().0.0
                == self.regions()[i].backing(k),
            self.translate_spec(self.regions()[i].page(k)).unwrap().1.has(
                PTEFlags(self.regions()[i].perm().0 | 1),
            ),
            self.regions()[i].kind() == MapType::Identical ==> self.translate_spec(
                self.regions()[i].page(k),
            ).unwrap().0.0 == self.regions()[i].page(k).0,
            self.regions()[i].kind() == MapType::Framed ==> self.owns(
                self.translate_spec(self.regions()[i].page(k)).unwrap().0.0,
            ),
            self.regions()[i].inv(),
            self.regions()[i].fully_mapped(),
    {
        reveal(MemorySet::regions_ok);
        reveal(MemorySet::owns);
        let a = self.regions()[i];
        let t = self.table().translate_spec(a.page(k));
        if a.kind() == MapType::Framed {
            assert(a.frame_ppns().contains(a.frame_ppns()[k]));
            assert(self.region_owns(i, a.frame_ppns()[k]));
        }
    }

    /// Every region of an address space is mapped in full.
    pub proof fn lemma_region_shape(&self, i: int)
        requires
            self.wf(),
            0 <= i < self.regions().len(),
        ensures
            self.regions()[i].inv(),
            self.regions()[i].fully_mapped(),
    {
        reveal(MemorySet::regions_ok);
    }

    /// The trampoline page of an address space that has one translates to
    /// the shared frame, which the address space does not own when all of
    /// what it owns is marked in use and the frame is not.
    pub proof fn lemma_trampoline_translates(&self)
        requires
            self.wf(),
            self.trampoline_frame() is Some,
        ensures
            self.translate_spec(VirtPageNum(TRAMPOLINE_VPN)) is Some,
            self.translate_spec(VirtPageNum(TRAMPOLINE_VPN)).unwrap().0
                == self.trampoline_frame().unwrap(),
            self.translate_spec(VirtPageNum(TRAMPOLINE_VPN)).unwrap().1 == PTEFlags(0x0b),
            self.translate_spec(VirtPageNum(TRAMPOLINE_VPN)).unwrap().1.has(PTEFlags(0x0b)),
    {
        reveal(MemorySet::trampoline_ok);
        lemma_flag_bits(0x0b, 0, 0);
    }

    /// The bytes of an address space depend on its regions alone.
    pub proof fn lemma_bytes_kept(&self, before: Self)
        requires
            before.wf(),
            self.wf(),
            self.regions() == before.regions(),
        ensures
            forall|v: u64| self.holder(v) == before.holder(v),
            forall|va: u64| self.byte_at(va) == before.byte_at(va),
    {
        assert forall|v: u64| self.holder(v) == before.holder(v) by {
            match before.holder(v) {
                Some(i) => {
                    assert(before.holds(i, v));
                    assert(self.holds(i, v));
                    self.lemma_holder(i, v);
                },
                None => {
                    if exists|i: int| self.holds(i, v) {
                        let i = choose|i: int| self.holds(i, v);
                        assert(before.holds(i, v));
                    }
                },
            }
        }
        assert forall|va: u64| self.byte_at(va) == before.byte_at(va) by {
            assert(self.holder(va / 4096) == before.holder(va / 4096));
        }
    }

    /// The bytes of the address space once a region has joined it.
    proof fn lemma_pushed_byte_at(&self, before: Self, a0: MapArea, af: MapArea, data: Option<&[u8]>)
        requires
            before.wf(),
            self.wf(),
            self.regions() == before.regions().push(af),
            af.start() == a0.start(),
            af.end() == a0.end(),
            af.kind() == a0.kind(),
            af.inv(),
            af.fully_mapped(),
            af.kind() == MapType::Framed ==> forall|i: int|
                0 <= i < af.mapped() * 4096 ==> #[trigger] af.byte(i) == Self::pushed_byte(
                    a0,
                    data,
                    i,
                ),
        ensures
            forall|va: u64|
                #[trigger] self.byte_at(va) == (if a0.kind() == MapType::Framed && a0.start() <= va
                    / 4096 < a0.end() {
                    Some(Self::pushed_byte(a0, data, (va / 4096 - a0.start()) * 4096 + va % 4096))
                } else {
                    before.byte_at(va)
                }),
    {
        self.lemma_pushed_holder(before, af);
        assert forall|va: u64|
            #[trigger] self.byte_at(va) == (if a0.kind() == MapType::Framed && a0.start() <= va
                / 4096 < a0.end() {
                Some(Self::pushed_byte(a0, data, (va / 4096 - a0.start()) * 4096 + va % 4096))
            } else {
                before.byte_at(va)
            }) by {
            let h = self.holder(va / 4096);
            if af.kind() == MapType::Framed && af.covers(va / 4096) {
                let b = (va / 4096 - a0.start()) * 4096 + va % 4096;
                assert(0 <= b < af.mapped() * 4096);
                assert(af.byte(b) == Self::pushed_byte(a0, data, b));
                assert(self.regions()[before.regions().len() as int] == af);
            }
        }
    }

    /// What the bytes of the address space are once a region has joined it.
    proof fn lemma_pushed_holder(&self, before: Self, af: MapArea)
        requires
            before.wf(),
            self.wf(),
            self.regions() == before.regions().push(af),
        ensures
            forall|v: u64|
                #[trigger] self.holder(v) == (if af.kind() == MapType::Framed && af.covers(v) {
                    Some(before.regions().len() as int)
                } else {
                    before.holder(v)
                }),
    {
        let n = before.regions().len() as int;
        assert forall|v: u64|
            #[trigger] self.holder(v) == (if af.kind() == MapType::Framed && af.covers(v) {
                Some(n)
            } else {
                before.holder(v)
            }) by {
            if af.kind() == MapType::Framed && af.covers(v) {
                assert(self.holds(n, v));
                self.lemma_holder(n, v);
            } else {
                match before.holder(v) {
                    Some(i) => {
                        assert(before.holds(i, v));
                        assert(self.regions()[i] == before.regions()[i]);
                        assert(self.holds(i, v));
                        self.lemma_holder(i, v);
                    },
                    None => {
                        if exists|i: int| self.holds(i, v) {
                            let i = choose|i: int| self.holds(i, v);
                            assert(i < n);
                            assert(self.regions()[i] == before.regions()[i]);
                            assert(before.holds(i, v));
                        }
                    },
                }
            }
        }
    }

    /// The frame that the trampoline page maps to, once it is mapped.
    pub fn trampoline(&self) -> (r: Option<PhysPageNum>)
        requires
            self.wf(),
        ensures
            r == self.trampoline_frame(),
            r is Some ==> r.unwrap().wf(),
    {
        proof {
            if self.trampoline is Some {
                self.lemma_trampoline_translates();
                self.page_table.lemma_translation_wf(VirtPageNum(TRAMPOLINE_VPN));
            }
        }
        self.trampoline
    }

    /// The regions of the address space.
    pub fn areas(&self) -> (r: &Vec<MapArea>)
        ensures
            r@ == self.regions(),
    {
        &self.areas
    }

    /// The page table of the address space.
    pub fn page_table(&self) -> (r: &PageTable)
        ensures
            *r == self.table(),
    {
        &self.page_table
    }

    /// The value for the `satp` register that selects this address space:
    /// mode 8 (SV39) in the top four bits, the root frame below.
    pub fn token(&self) -> (r: u64)
        requires
            self.table().wf(),
        ensures
            r == self.token_spec(),
            r == (8u64 << 60) | self.table().root(),
    {
        let root = self.page_table.as_ppn().0;
        proof {
            lemma_token_bits(root);
        }
        root | (8u64 << 60)
    }

    /// The physical address that the virtual address `va` translates to.
    pub fn translate(&self, va: u64) -> (r: Option<u64>)
        requires
            self.table().wf(),
        ensures
            r == (match self.translate_spec(VirtPageNum(va / 4096)) {
                Some((ppn, _)) => Some((ppn.0 * 4096 + va % 4096) as u64),
                None => None,
            }),
    {
        let vpn = VirtAddr::new(va).page_number();
        let offset = VirtAddr::new(va).page_offset();
        match self.page_table.translate(vpn) {
            Some((ppn, _)) => {
                proof {
                    self.page_table.lemma_translation_wf(vpn);
                }
                Some(ppn.addr().0 + offset)
            },
            None => None,
        }
    }
}

/// The mode bits and a 44-bit frame number do not meet.
pub proof fn lemma_token_bits(root: u64)
    by (bit_vector)
    requires
        root < 0x1000_0000_0000,
    ensures
        root | (8u64 << 60) == 0x8000_0000_0000_0000 + root,
        root | (8u64 << 60) == (8u64 << 60) | root,
{
}

} // verus!
