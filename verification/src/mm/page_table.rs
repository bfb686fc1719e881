//! SV39 page tables.
//!
//! A page table is a tree of three levels of 512-entry tables. Each table
//! stands for one physical frame; an entry names its child by physical page
//! number, and the tree keeps the tables themselves, so that one address
//! space can never reach into the tables of another.

use vstd::prelude::*;
use crate::mm::frame_allocator::BitmapFrameAllocator;
use crate::mm::memory_layout::{index_at, same_path, PhysPageNum, VirtPageNum, PPN_LIMIT};

verus! {

/// Number of entries in one table.
pub const ENTRY_COUNT: usize = 512;

/// The flag bits of a page-table entry.
#[derive(Copy, Clone, Debug, PartialEq, Eq, Structural)]
pub struct PTEFlags(pub u8);

/// What the flag bits of an entry mean, as bit arithmetic.
pub proof fn lemma_flag_bits(f: u8, g: u8, h: u8)
    by (bit_vector)
    ensures
        (f | g) & g == g,
        (f | g) & f == f,
        f & f == f,
        (f | g) == (g | f),
        f & h == h ==> (f | g) & h == h,
        (f | 1) & 1 == 1,
        (f | 1) & 0xe == f & 0xe,
        1u8 & 1 == 1,
        1u8 & 0xe == 0,
        0u8 & 1 == 0,
        0u8 & 0xe == 0,
        f & 0 == 0,
        (f | g) | 1 == (f | 1) | (g | 1),
        f & (g | h) == (g | h) ==> f & g == g && f & h == h,
        (f & g == g && g & h == h) ==> f & h == h,
        ((f | g) | 1) & (g | 1) == (g | 1),
        f & g == g && f & h == h ==> f & (g | h) == (g | h),
{
}

impl PTEFlags {
    /// Valid.
    pub const V: u8 = 0x01;

    /// Readable.
    pub const R: u8 = 0x02;

    /// Writable.
    pub const W: u8 = 0x04;

    /// Executable.
    pub const X: u8 = 0x08;

    /// Accessible in user mode.
    pub const U: u8 = 0x10;

    /// Global mapping.
    pub const G: u8 = 0x20;

    /// Accessed (set by hardware).
    pub const A: u8 = 0x40;

    /// Dirty (set by hardware).
    pub const D: u8 = 0x80;

    /// Whether every bit of `other` is set in `self`.
    pub open spec fn has(self, other: PTEFlags) -> bool {
        self.0 & other.0 == other.0
    }

    /// The valid bit is set.
    pub open spec fn valid(self) -> bool {
        self.0 & 0x01 == 0x01
    }

    /// One of the read, write and execute bits is set.
    pub open spec fn leaf(self) -> bool {
        self.0 & 0x0e != 0
    }

    /// No flag.
    pub fn empty() -> (r: Self)
        ensures
            r.0 == 0,
    {
        PTEFlags(0)
    }

    /// The flags as a byte.
    pub fn bits(&self) -> (r: u8)
        ensures
            r == self.0,
    {
        self.0
    }

    /// The flags that a byte stands for. Every byte is a set of flags.
    pub fn from_bits(bits: u8) -> (r: Option<Self>)
        ensures
            r == Some(PTEFlags(bits)),
    {
        Some(PTEFlags(bits))
    }

    /// Whether every flag of `other` is set in `self`.
    pub fn contains(&self, other: Self) -> (r: bool)
        ensures
            r == self.has(other),
    {
        (self.0 & other.0) == other.0
    }

    /// The flags of both.
    pub fn union(self, other: Self) -> (r: Self)
        ensures
            r.0 == self.0 | other.0,
            r.has(self),
            r.has(other),
    {
        proof {
            lemma_flag_bits(self.0, other.0, 0);
        }
        PTEFlags(self.0 | other.0)
    }
}

/// What packing a page number and flags into an entry keeps.
pub proof fn lemma_entry_bits(ppn: u64, f: u8, b: u64)
    by (bit_vector)
    ensures
        ppn < 0x1000_0000_0000 ==> (((ppn << 10) | (f as u64)) >> 10) & 0xfff_ffff_ffff == ppn,
        ppn < 0x1000_0000_0000 ==> (((ppn << 10) | (f as u64)) & 0xff) as u8 == f,
        (b >> 10) & 0xfff_ffff_ffff < 0x1000_0000_0000,
        ((0u64 >> 10) & 0xfff_ffff_ffff) == 0,
        ((0u64 & 0xff) as u8) == 0,
        (((b & 0xff) as u8) & 0x0e != 0) == (((b & 0xff) as u8) & 2 == 2 || ((b & 0xff) as u8) & 4
            == 4 || ((b & 0xff) as u8) & 8 == 8),
{
}

/// A page-table entry: flags in bits 0 to 7, page number in bits 10 to 53.
#[derive(Copy, Clone, Debug, PartialEq, Eq, Structural)]
pub struct PageTableEntry {
    pub bits: u64,
}

impl PageTableEntry {
    /// The page number that the entry holds.
    pub open spec fn spec_ppn(self) -> PhysPageNum {
        PhysPageNum((self.bits >> 10) & 0xfff_ffff_ffff)
    }

    /// The flags that the entry holds.
    pub open spec fn spec_flags(self) -> PTEFlags {
        PTEFlags((self.bits & 0xff) as u8)
    }

    /// The entry is valid.
    pub open spec fn valid(self) -> bool {
        self.spec_flags().valid()
    }

    /// The entry maps a page (rather than pointing to a next table).
    pub open spec fn leaf(self) -> bool {
        self.spec_flags().leaf()
    }

    /// The entry points to a next table.
    pub open spec fn branch(self) -> bool {
        self.valid() && !self.leaf()
    }

    /// An invalid entry.
    pub fn new() -> (r: Self)
        ensures
            r.bits == 0,
            !r.valid(),
            !r.leaf(),
            r.spec_ppn().0 == 0,
            r.spec_flags().0 == 0,
    {
        proof {
            lemma_entry_bits(0, 0, 0);
            lemma_flag_bits(0, 0, 0);
        }
        PageTableEntry { bits: 0 }
    }

    /// An entry for page `ppn` with `flags`.
    pub fn new_with_ppn(ppn: PhysPageNum, flags: PTEFlags) -> (r: Self)
        ensures
            r.bits == (ppn.0 << 10) | (flags.0 as u64),
            ppn.wf() ==> r.spec_ppn() == ppn && r.spec_flags() == flags,
    {
        proof {
            lemma_entry_bits(ppn.0, flags.0, 0);
        }
        PageTableEntry { bits: (ppn.0 << 10) | (flags.0 as u64) }
    }

    /// The page number that the entry holds.
    pub fn ppn(&self) -> (r: PhysPageNum)
        ensures
            r == self.spec_ppn(),
            r.wf(),
    {
        proof {
            lemma_entry_bits(0, 0, self.bits);
        }
        PhysPageNum((self.bits >> 10) & 0x0FFF_FFFF_FFFF)
    }

    /// The flags that the entry holds.
    pub fn flags(&self) -> (r: PTEFlags)
        ensures
            r == self.spec_flags(),
    {
        PTEFlags((self.bits & 0xFF) as u8)
    }

    /// Whether the valid flag is set.
    pub fn is_valid(&self) -> (r: bool)
        ensures
            r == self.valid(),
    {
        self.flags().contains(PTEFlags(PTEFlags::V))
    }

    /// Whether one of the read, write and execute flags is set.
    pub fn is_leaf(&self) -> (r: bool)
        ensures
            r == self.leaf(),
    {
        let flags = self.flags();
        proof {
            lemma_entry_bits(0, 0, self.bits);
        }
        flags.contains(PTEFlags(PTEFlags::R)) || flags.contains(PTEFlags(PTEFlags::W))
            || flags.contains(PTEFlags(PTEFlags::X))
    }

    /// Makes the entry invalid.
    pub fn clear(&mut self)
        ensures
            final(self).bits == 0,
            !final(self).valid(),
    {
        proof {
            lemma_entry_bits(0, 0, 0);
            lemma_flag_bits(0, 0, 0);
        }
        self.bits = 0;
    }
}

/// Why a page-table operation failed.
#[derive(Copy, Clone, Debug, PartialEq, Eq, Structural)]
pub enum MapError {
    /// No free frame was left for a table or a page.
    OutOfMemory,
    /// The page already has a mapping.
    AlreadyMapped,
    /// An entry above the last level maps a page itself.
    LeafInPath,
    /// The page has no mapping.
    NotMapped,
    /// The page cannot be mapped where it lies, or the region has not
    /// mapped it.
    OutOfRange,
}

impl MapError {
    /// The error in words.
    pub open spec fn text(self) -> Seq<char> {
        match self {
            MapError::OutOfMemory => "Out of memory"@,
            MapError::AlreadyMapped => "Page already mapped"@,
            MapError::LeafInPath => "Encountered leaf PTE in intermediate level"@,
            MapError::NotMapped => "Page not mapped"@,
            MapError::OutOfRange => "Page outside the region"@,
        }
    }

    /// The error in words.
    pub fn message(&self) -> (r: &'static str)
        ensures
            r@ == self.text(),
    {
        match self {
            MapError::OutOfMemory => "Out of memory",
            MapError::AlreadyMapped => "Page already mapped",
            MapError::LeafInPath => "Encountered leaf PTE in intermediate level",
            MapError::NotMapped => "Page not mapped",
            MapError::OutOfRange => "Page outside the region",
        }
    }
}

/// One table of the tree: the frame that holds it, its place in the tree,
/// its 512 entries and, for each entry that points to a next table, where
/// the tree keeps that table.
pub struct TableFrame {
    ppn: PhysPageNum,
    level: usize,
    parent: usize,
    parent_slot: usize,
    entries: Vec<PageTableEntry>,
    links: Vec<usize>,
}

impl TableFrame {
    /// The table has its 512 entries and links, a frame and a level.
    spec fn shape_ok(&self) -> bool {
        &&& self.entries@.len() == ENTRY_COUNT
        &&& self.links@.len() == ENTRY_COUNT
        &&& self.ppn.wf()
        &&& self.level <= 2
    }

    /// No entry of the table is valid.
    spec fn is_empty(&self) -> bool {
        forall|s: int| 0 <= s < ENTRY_COUNT ==> !(#[trigger] self.entries@[s]).valid()
    }

    /// A table in frame `ppn` with no valid entry.
    fn new(ppn: PhysPageNum, level: usize, parent: usize, parent_slot: usize) -> (r: Self)
        requires
            ppn.wf(),
            level <= 2,
        ensures
            r.shape_ok(),
            r.is_empty(),
            r.ppn == ppn,
            r.level == level,
            r.parent == parent,
            r.parent_slot == parent_slot,
    {
        let mut entries: Vec<PageTableEntry> = Vec::new();
        let mut links: Vec<usize> = Vec::new();
        let mut i: usize = 0;
        while i < ENTRY_COUNT
            invariant
                i <= ENTRY_COUNT,
                entries@.len() == i,
                links@.len() == i,
                forall|s: int| 0 <= s < i ==> !(#[trigger] entries@[s]).valid(),
            decreases ENTRY_COUNT - i,
        {
            entries.push(PageTableEntry::new());
            links.push(0);
            i += 1;
        }
        TableFrame { ppn, level, parent, parent_slot, entries, links }
    }
}

/// The page table of one address space.
pub struct PageTable {
    /// The tables of the tree; the first is the root.
    frames: Vec<TableFrame>,
}

impl PageTable {
    /// Entry `s` of table `f`.
    spec fn slot(&self, f: int, s: int) -> PageTableEntry {
        self.frames@[f].entries@[s]
    }

    /// The place, among the tables, of the table that entry `s` of table `f`
    /// points to.
    spec fn link(&self, f: int, s: int) -> int {
        self.frames@[f].links@[s] as int
    }

    /// Entry `s` of table `f` points to a table one level down that knows
    /// this entry as its parent.
    spec fn link_ok(&self, f: int, s: int) -> bool {
        let c = self.link(f, s);
        &&& 0 < c < self.frames@.len()
        &&& self.frames@[c].ppn == self.slot(f, s).spec_ppn()
        &&& self.frames@[c].level + 1 == self.frames@[f].level
        &&& self.frames@[c].parent == f
        &&& self.frames@[c].parent_slot == s
    }

    /// The invariant of the tree: the root is the only table of level 2,
    /// no frame holds two tables, and every entry that points to a next
    /// table points to a table one level down that no other entry points to.
    pub closed spec fn wf(&self) -> bool {
        &&& self.frames@.len() >= 1
        &&& self.frames@[0].level == 2
        &&& forall|f: int|
            0 <= f < self.frames@.len() ==> (#[trigger] self.frames@[f]).shape_ok() && (f > 0
                ==> self.frames@[f].level <= 1)
        &&& forall|f: int, g: int|
            0 <= f < self.frames@.len() && 0 <= g < self.frames@.len() && f != g ==> (
            #[trigger] self.frames@[f]).ppn != (#[trigger] self.frames@[g]).ppn
        &&& forall|f: int, s: int|
            0 <= f < self.frames@.len() && 0 <= s < ENTRY_COUNT && self.frames@[f].level >= 1 && (
            #[trigger] self.slot(f, s)).branch() ==> self.link_ok(f, s)
    }

    /// The entry at which the walk for `vpn` ends, if it ends at a valid one.
    spec fn walk(&self, vpn: u64) -> Option<PageTableEntry> {
        let e2 = self.slot(0, index_at(vpn, 2));
        if e2.branch() {
            let t1 = self.link(0, index_at(vpn, 2));
            let e1 = self.slot(t1, index_at(vpn, 1));
            if e1.branch() {
                let t0 = self.link(t1, index_at(vpn, 1));
                let e0 = self.slot(t0, index_at(vpn, 0));
                if e0.valid() {
                    Some(e0)
                } else {
                    None
                }
            } else if e1.valid() {
                Some(e1)
            } else {
                None
            }
        } else if e2.valid() {
            Some(e2)
        } else {
            None
        }
    }

    /// What `vpn` translates to: the page number and the flags of the entry
    /// at which the walk ends.
    pub closed spec fn translate_spec(&self, vpn: VirtPageNum) -> Option<(PhysPageNum, PTEFlags)> {
        match self.walk(vpn.0) {
            Some(e) => Some((e.spec_ppn(), e.spec_flags())),
            None => None,
        }
    }

    /// An entry above the last level on the path of `vpn` maps a page itself.
    pub closed spec fn path_blocked(&self, vpn: VirtPageNum) -> bool {
        let e2 = self.slot(0, index_at(vpn.0, 2));
        if e2.branch() {
            let e1 = self.slot(self.link(0, index_at(vpn.0, 2)), index_at(vpn.0, 1));
            e1.valid() && e1.leaf()
        } else {
            e2.valid()
        }
    }

    /// How many tables are missing on the path of `vpn`.
    pub closed spec fn missing_tables(&self, vpn: VirtPageNum) -> nat {
        let e2 = self.slot(0, index_at(vpn.0, 2));
        if e2.branch() {
            let e1 = self.slot(self.link(0, index_at(vpn.0, 2)), index_at(vpn.0, 1));
            if e1.valid() {
                0
            } else {
                1
            }
        } else if e2.valid() {
            0
        } else {
            2
        }
    }

    /// The frames that hold the tables of the tree, the root first.
    pub closed spec fn ppns(&self) -> Seq<u64> {
        Seq::new(self.frames@.len(), |f: int| self.frames@[f].ppn.0)
    }

    /// The frame of the root table.
    pub open spec fn root(&self) -> u64 {
        self.ppns()[0]
    }

    /// Whether frame `q` holds a table of the tree.
    pub open spec fn owns(&self, q: u64) -> bool {
        self.ppns().contains(q)
    }

    /// Every frame of the tree is marked as in use in `alloc`.
    pub open spec fn backed_by(&self, alloc: &BitmapFrameAllocator) -> bool {
        forall|i: int| 0 <= i < self.ppns().len() ==> alloc.is_allocated(#[trigger] self.ppns()[i])
    }

    /// No page has a translation.
    pub open spec fn is_empty(&self) -> bool {
        forall|v: VirtPageNum| self.translate_spec(v) is None
    }

    /// No entry above the last level maps a page.
    pub open spec fn unblocked(&self) -> bool {
        forall|v: VirtPageNum| !self.path_blocked(v)
    }

    /// In a table in which no page translates, no higher entry maps a page.
    pub proof fn lemma_empty_unblocked(&self)
        requires
            self.is_empty(),
        ensures
            self.unblocked(),
    {
        assert forall|v: VirtPageNum| !self.path_blocked(v) by {
            if self.path_blocked(v) {
                self.lemma_blocked(v);
            }
        }
    }

    /// A table has at least its root, and no frame holds two of its tables.
    pub proof fn lemma_ppns(&self)
        requires
            self.wf(),
        ensures
            self.ppns().len() >= 1,
            self.ppns().no_duplicates(),
            forall|i: int| 0 <= i < self.ppns().len() ==> (#[trigger] self.ppns()[i]) < PPN_LIMIT,
    {
        assert forall|i: int, j: int|
            0 <= i < self.ppns().len() && 0 <= j < self.ppns().len() && i != j implies self.ppns()[i]
            != self.ppns()[j] by {
            assert(self.frames@[i].ppn != self.frames@[j].ppn);
        }
        assert forall|i: int| 0 <= i < self.ppns().len() implies (#[trigger] self.ppns()[i])
            < PPN_LIMIT by {
            assert(self.frames@[i].shape_ok());
        }
    }

    /// A translation depends only on the three table indexes of the page.
    pub proof fn lemma_same_path(&self, a: VirtPageNum, b: VirtPageNum)
        requires
            same_path(a.0, b.0),
        ensures
            self.translate_spec(a) == self.translate_spec(b),
            self.path_blocked(a) == self.path_blocked(b),
            self.missing_tables(a) == self.missing_tables(b),
    {
    }

    /// Pages that select the same entries at the two upper levels miss
    /// the same tables.
    pub proof fn lemma_missing_shared(&self, u: VirtPageNum, w: VirtPageNum)
        requires
            index_at(u.0, 2) == index_at(w.0, 2),
            index_at(u.0, 1) == index_at(w.0, 1),
        ensures
            self.missing_tables(u) == self.missing_tables(w),
    {
    }

    /// Beside a page whose path is whole, a page that selects the same
    /// entry of the root misses at most the last table.
    pub proof fn lemma_missing_below(&self, u: VirtPageNum, w: VirtPageNum)
        requires
            index_at(u.0, 2) == index_at(w.0, 2),
            self.missing_tables(u) == 0,
        ensures
            self.missing_tables(w) <= 1,
    {
    }

    /// A path has two tables below the root.
    pub proof fn lemma_missing_bound(&self, v: VirtPageNum)
        ensures
            self.missing_tables(v) <= 2,
    {
    }

    /// A page that translates has its whole path, unless a higher entry maps it.
    pub proof fn lemma_translated(&self, v: VirtPageNum)
        requires
            self.translate_spec(v) is Some,
        ensures
            self.missing_tables(v) == 0,
    {
    }

    /// A page below a mapping entry of a higher level translates.
    pub proof fn lemma_blocked(&self, v: VirtPageNum)
        requires
            self.path_blocked(v),
        ensures
            self.translate_spec(v) is Some,
            self.missing_tables(v) == 0,
    {
    }

    /// What a translation yields holds a 44-bit page number.
    pub proof fn lemma_translation_wf(&self, v: VirtPageNum)
        requires
            self.translate_spec(v) is Some,
        ensures
            self.translate_spec(v).unwrap().0.wf(),
    {
        let e = self.walk(v.0)->0;
        lemma_entry_bits(0, 0, e.bits);
    }

    /// An empty table whose root lies in frame `root_ppn`.
    pub fn new(root_ppn: PhysPageNum) -> (r: Self)
        requires
            root_ppn.wf(),
        ensures
            r.wf(),
            r.ppns() == seq![root_ppn.0],
            r.is_empty(),
            forall|i: int| 0 <= i < ENTRY_COUNT ==> !(#[trigger] r.root_entry(i)).valid(),
    {
        let root = TableFrame::new(root_ppn, 2, 0, 0);
        let mut frames: Vec<TableFrame> = Vec::new();
        frames.push(root);
        let r = PageTable { frames };
        proof {
            assert(r.ppns() =~= seq![root_ppn.0]);
            assert forall|v: VirtPageNum| r.translate_spec(v) is None by {
                assert(!r.frames@[0].entries@[index_at(v.0, 2)].valid());
            }
        }
        r
    }

    /// The frame of the root table.
    pub fn as_ppn(&self) -> (r: PhysPageNum)
        requires
            self.wf(),
        ensures
            r.0 == self.root(),
            r.wf(),
    {
        proof {
            assert(self.frames@[0].shape_ok());
        }
        self.frames[0].ppn
    }

    /// The table below entry `s` of table `f`, made first if the entry is
    /// empty. No translation changes.
    fn ensure_child(&mut self, f: usize, s: usize, alloc: &mut BitmapFrameAllocator) -> (r: Result<
        usize,
        MapError,
    >)
        requires
            old(self).wf(),
            old(alloc).wf(),
            old(self).backed_by(old(alloc)),
            f < old(self).frames@.len(),
            old(self).frames@[f as int].level >= 1,
            s < ENTRY_COUNT,
        ensures
            final(self).wf(),
            final(alloc).wf(),
            final(self).backed_by(final(alloc)),
            final(alloc).start() == old(alloc).start(),
            final(alloc).end() == old(alloc).end(),
            forall|v: u64| final(self).walk(v) == old(self).walk(v),
            forall|v: VirtPageNum| final(self).path_blocked(v) == old(self).path_blocked(v),
            forall|g: int|
                0 <= g < old(self).frames@.len() && g != f ==> final(self).frames@[g] == old(self).frames@[g],
            forall|t: int|
                0 <= t < ENTRY_COUNT && t != s ==> final(self).slot(f as int, t) == old(self).slot(
                    f as int,
                    t,
                ) && final(self).link(f as int, t) == old(self).link(f as int, t),
            final(self).frames@[f as int].level == old(self).frames@[f as int].level,
            final(self).frames@[f as int].ppn == old(self).frames@[f as int].ppn,
            match r {
                Ok(c) => {
                    &&& final(self).slot(f as int, s as int).branch()
                    &&& final(self).link(f as int, s as int) == c
                    &&& c < final(self).frames@.len()
                    &&& if old(self).slot(f as int, s as int).valid() {
                        &&& final(self).frames@ == old(self).frames@
                        &&& *final(alloc) == *old(alloc)
                    } else {
                        &&& final(self).frames@.len() == old(self).frames@.len() + 1
                        &&& c == old(self).frames@.len()
                        &&& final(self).frames@[c as int].is_empty()
                        &&& old(alloc).is_free(final(self).frames@[c as int].ppn.0)
                        &&& forall|q: u64|
                            final(alloc).is_allocated(q) == (q == final(self).frames@[c as int].ppn.0
                                || old(alloc).is_allocated(q))
                        &&& final(alloc).frames_in_use() == old(alloc).frames_in_use() + 1
                    }
                },
                Err(e) => {
                    &&& final(self).frames@ == old(self).frames@
                    &&& *final(alloc) == *old(alloc)
                    &&& e == MapError::OutOfMemory || e == MapError::LeafInPath
                    &&& e == MapError::LeafInPath <==> old(self).slot(f as int, s as int).valid()
                        && old(self).slot(f as int, s as int).leaf()
                    &&& e == MapError::OutOfMemory ==> old(alloc).free_count() == 0
                        && !old(self).slot(f as int, s as int).valid()
                },
            },
    {
        let e = self.frames[f].entries[s];
        if !e.is_valid() {
            match alloc.alloc_frame() {
                None => Err(MapError::OutOfMemory),
                Some(p) => {
                    let level = self.frames[f].level;
                    let c = self.frames.len();
                    proof {
                        assert forall|g: int| 0 <= g < self.frames@.len() implies self.frames@[g].ppn
                            != p by {
                            assert(old(alloc).is_allocated(self.ppns()[g]));
                        }
                    }
                    let t = TableFrame::new(p, level - 1, f, s);
                    self.frames.push(t);
                    let pte = PageTableEntry::new_with_ppn(p, PTEFlags(PTEFlags::V));
                    proof {
                        lemma_flag_bits(0, 0, 0);
                    }
                    self.frames[f].entries[s] = pte;
                    self.frames[f].links[s] = c;
                    proof {
                        self.lemma_linked(*old(self), f as int, s as int, c);
                        assert forall|i: int| 0 <= i < self.ppns().len() implies alloc.is_allocated(
                            #[trigger] self.ppns()[i],
                        ) by {
                            if i < old(self).ppns().len() {
                                assert(old(alloc).is_allocated(old(self).ppns()[i]));
                            }
                        }
                    }
                    Ok(c)
                },
            }
        } else if e.is_leaf() {
            Err(MapError::LeafInPath)
        } else {
            proof {
                assert(self.slot(f as int, s as int).branch());
                assert(self.link_ok(f as int, s as int));
            }
            Ok(self.frames[f].links[s])
        }
    }

    /// The tree that `ensure_child` leaves when it adds a table is well
    /// formed and translates as the tree before did.
    proof fn lemma_linked(&self, before: Self, f: int, s: int, c: usize)
        requires
            before.wf(),
            0 <= f < before.frames@.len(),
            0 <= s < ENTRY_COUNT,
            before.frames@[f].level >= 1,
            !before.slot(f, s).valid(),
            self.frames@.len() == before.frames@.len() + 1,
            forall|g: int|
                0 <= g < before.frames@.len() && g != f ==> self.frames@[g] == before.frames@[g],
            self.frames@[f].ppn == before.frames@[f].ppn,
            self.frames@[f].level == before.frames@[f].level,
            self.frames@[f].parent == before.frames@[f].parent,
            self.frames@[f].parent_slot == before.frames@[f].parent_slot,
            self.frames@[f].entries@ == before.frames@[f].entries@.update(s, self.slot(f, s)),
            c == before.frames@.len(),
            self.frames@[f].links@ == before.frames@[f].links@.update(s, c),
            self.slot(f, s).branch(),
            ({
                let t = self.frames@[before.frames@.len() as int];
                &&& t.shape_ok()
                &&& t.is_empty()
                &&& t.ppn == self.slot(f, s).spec_ppn()
                &&& t.level + 1 == before.frames@[f].level
                &&& t.parent == f
                &&& t.parent_slot == s
                &&& forall|g: int| 0 <= g < before.frames@.len() ==> before.frames@[g].ppn != t.ppn
            }),
        ensures
            self.wf(),
            forall|v: u64| self.walk(v) == before.walk(v),
            forall|v: VirtPageNum| self.path_blocked(v) == before.path_blocked(v),
    {
        let n = before.frames@.len() as int;
        assert forall|g: int| 0 <= g < self.frames@.len() implies (#[trigger] self.frames@[g]).shape_ok()
            && (g > 0 ==> self.frames@[g].level <= 1) by {
            if g < n {
                assert(before.frames@[g].shape_ok());
            }
        }
        assert forall|g: int, t: int|
            0 <= g < self.frames@.len() && 0 <= t < ENTRY_COUNT && self.frames@[g].level >= 1 && (
            #[trigger] self.slot(g, t)).branch() implies self.link_ok(g, t) by {
            if g == n {
                assert(!self.frames@[n].entries@[t].valid());
            } else if g == f && t == s {
            } else {
                assert(self.slot(g, t) == before.slot(g, t));
                assert(before.link_ok(g, t));
                assert(self.link(g, t) == before.link(g, t));
            }
        }
        assert forall|v: u64| self.walk(v) == before.walk(v) by {
            self.lemma_linked_walk(before, f, s, c, v);
        }
        assert forall|v: VirtPageNum| self.path_blocked(v) == before.path_blocked(v) by {
            self.lemma_linked_walk(before, f, s, c, v.0);
        }
    }

    /// Linking an empty table into a free entry changes no walk: every
    /// page translates as before, and is blocked as before.
    proof fn lemma_linked_walk(&self, before: Self, f: int, s: int, c: usize, v: u64)
        requires
            before.wf(),
            0 <= f < before.frames@.len(),
            0 <= s < ENTRY_COUNT,
            before.frames@[f].level >= 1,
            !before.slot(f, s).valid(),
            self.frames@.len() == before.frames@.len() + 1,
            forall|g: int|
                0 <= g < before.frames@.len() && g != f ==> self.frames@[g] == before.frames@[g],
            self.frames@[f].level == before.frames@[f].level,
            self.frames@[f].entries@ == before.frames@[f].entries@.update(s, self.slot(f, s)),
            c == before.frames@.len(),
            self.frames@[f].links@ == before.frames@[f].links@.update(s, c),
            self.slot(f, s).branch(),
            self.frames@[before.frames@.len() as int].is_empty(),
            self.frames@[before.frames@.len() as int].shape_ok(),
        ensures
            self.walk(v) == before.walk(v),
            self.path_blocked(VirtPageNum(v)) == before.path_blocked(VirtPageNum(v)),
    {
        let n = before.frames@.len() as int;
        let i2 = index_at(v, 2);
        let i1 = index_at(v, 1);
        let i0 = index_at(v, 0);
        assert(before.frames@[0].shape_ok());
        assert(before.frames@[f].shape_ok());
        if f == 0 && s == i2 {
            assert(!self.frames@[n].entries@[i1].valid());
        } else {
            assert(self.slot(0, i2) == before.slot(0, i2));
            assert(self.link(0, i2) == before.link(0, i2));
            if before.slot(0, i2).branch() {
                assert(before.link_ok(0, i2));
                let t1 = before.link(0, i2);
                assert(before.frames@[t1].shape_ok());
                if t1 == f && s == i1 {
                    assert(!self.frames@[n].entries@[i0].valid());
                } else {
                    assert(self.slot(t1, i1) == before.slot(t1, i1));
                    assert(self.link(t1, i1) == before.link(t1, i1));
                    if before.slot(t1, i1).branch() {
                        assert(before.link_ok(t1, i1));
                        let t0 = before.link(t1, i1);
                        assert(before.frames@[t0].level == 0);
                        assert(t0 != f);
                    }
                }
            }
        }
    }

    /// The path of `vpn` is complete: both entries above the last level
    /// point to tables.
    spec fn has_path(&self, vpn: u64) -> bool {
        &&& self.slot(0, index_at(vpn, 2)).branch()
        &&& self.slot(self.link(0, index_at(vpn, 2)), index_at(vpn, 1)).branch()
    }

    /// The last-level table on the path of `vpn`.
    spec fn leaf_table(&self, vpn: u64) -> int {
        self.link(self.link(0, index_at(vpn, 2)), index_at(vpn, 1))
    }

    /// What holds after the last-level entry of `vpn` was replaced by `e`.
    proof fn lemma_leaf_update(&self, before: Self, vpn: u64, e: PageTableEntry)
        requires
            before.wf(),
            before.has_path(vpn),
            self.frames@.len() == before.frames@.len(),
            forall|g: int|
                0 <= g < before.frames@.len() && g != before.leaf_table(vpn) ==> self.frames@[g]
                    == before.frames@[g],
            ({
                let c = before.leaf_table(vpn);
                &&& self.frames@[c].ppn == before.frames@[c].ppn
                &&& self.frames@[c].level == before.frames@[c].level
                &&& self.frames@[c].parent == before.frames@[c].parent
                &&& self.frames@[c].parent_slot == before.frames@[c].parent_slot
                &&& self.frames@[c].links@ == before.frames@[c].links@
                &&& self.frames@[c].entries@ == before.frames@[c].entries@.update(
                    index_at(vpn, 0),
                    e,
                )
            }),
        ensures
            self.wf(),
            self.ppns() == before.ppns(),
            self.walk(vpn) == (if e.valid() {
                Some(e)
            } else {
                None
            }),
            forall|v: u64| !same_path(v, vpn) ==> self.walk(v) == before.walk(v),
            forall|v: VirtPageNum|
                self.path_blocked(v) == before.path_blocked(v) && self.missing_tables(v)
                    == before.missing_tables(v),
    {
        let i2 = index_at(vpn, 2);
        let i1 = index_at(vpn, 1);
        let i0 = index_at(vpn, 0);
        assert(before.link_ok(0, i2));
        let c1 = before.link(0, i2);
        assert(before.link_ok(c1, i1));
        let c0 = before.link(c1, i1);
        assert(before.frames@[c0].level == 0);
        assert(before.frames@[c0].shape_ok());
        assert forall|g: int| 0 <= g < self.frames@.len() implies (#[trigger] self.frames@[g]).shape_ok()
            && (g > 0 ==> self.frames@[g].level <= 1) by {
            assert(before.frames@[g].shape_ok());
        }
        assert forall|g: int, t: int|
            0 <= g < self.frames@.len() && 0 <= t < ENTRY_COUNT && self.frames@[g].level >= 1 && (
            #[trigger] self.slot(g, t)).branch() implies self.link_ok(g, t) by {
            assert(g != c0);
            assert(self.slot(g, t) == before.slot(g, t));
            assert(before.link_ok(g, t));
        }
        assert(self.ppns() =~= before.ppns());
        assert forall|v: u64| !same_path(v, vpn) implies self.walk(v) == before.walk(v) by {
            let j2 = index_at(v, 2);
            let j1 = index_at(v, 1);
            let j0 = index_at(v, 0);
            assert(before.frames@[0].shape_ok());
            if before.slot(0, j2).branch() {
                assert(before.link_ok(0, j2));
                let t1 = before.link(0, j2);
                assert(before.frames@[t1].shape_ok());
                if before.slot(t1, j1).branch() {
                    assert(before.link_ok(t1, j1));
                    let t0 = before.link(t1, j1);
                    if t0 == c0 {
                        assert(t1 == c1);
                        assert(j1 == i1);
                        assert(j2 == i2);
                        assert(j0 != i0);
                    }
                }
            }
        }
        assert forall|v: VirtPageNum|
            self.path_blocked(v) == before.path_blocked(v) && self.missing_tables(v)
                == before.missing_tables(v) by {
            let j2 = index_at(v.0, 2);
            assert(before.frames@[0].shape_ok());
            if before.slot(0, j2).branch() {
                assert(before.link_ok(0, j2));
            }
        }
    }

    /// Replaces the last-level entry of `vpn` by `e`.
    fn write_leaf(&mut self, c0: usize, i0: usize, e: PageTableEntry, Ghost(vpn): Ghost<u64>)
        requires
            old(self).wf(),
            old(self).has_path(vpn),
            c0 == old(self).leaf_table(vpn),
            i0 == index_at(vpn, 0),
        ensures
            final(self).wf(),
            final(self).ppns() == old(self).ppns(),
            final(self).walk(vpn) == (if e.valid() {
                Some(e)
            } else {
                None
            }),
            forall|v: u64| !same_path(v, vpn) ==> final(self).walk(v) == old(self).walk(v),
            forall|v: VirtPageNum|
                final(self).path_blocked(v) == old(self).path_blocked(v)
                    && final(self).missing_tables(v) == old(self).missing_tables(v),
    {
        proof {
            assert(self.link_ok(0, index_at(vpn, 2)));
            assert(self.link_ok(self.link(0, index_at(vpn, 2)), index_at(vpn, 1)));
            assert(self.frames@[c0 as int].shape_ok());
        }
        self.frames[c0].entries[i0] = e;
        proof {
            self.lemma_leaf_update(*old(self), vpn, e);
        }
    }

    /// Finds the last-level table on the path of `vpn`.
    fn find_leaf_table(&self, vpn: VirtPageNum) -> (r: Result<usize, MapError>)
        requires
            self.wf(),
        ensures
            match r {
                Ok(c) => self.has_path(vpn.0) && c == self.leaf_table(vpn.0) && c
                    < self.frames@.len() && self.frames@[c as int].shape_ok(),
                Err(e) => {
                    &&& !self.has_path(vpn.0)
                    &&& e == MapError::LeafInPath || e == MapError::NotMapped
                    &&& e == MapError::LeafInPath <==> self.path_blocked(vpn)
                    &&& e == MapError::NotMapped ==> self.walk(vpn.0) is None
                },
            },
    {
        let idx = vpn.indexes();
        proof {
            assert(self.frames@[0].shape_ok());
        }
        let e2 = self.frames[0].entries[idx[0]];
        if !e2.is_valid() {
            return Err(MapError::NotMapped);
        }
        if e2.is_leaf() {
            return Err(MapError::LeafInPath);
        }
        proof {
            assert(self.slot(0, idx[0] as int).branch());
            assert(self.link_ok(0, idx[0] as int));
        }
        let c1 = self.frames[0].links[idx[0]];
        proof {
            assert(self.frames@[c1 as int].shape_ok());
        }
        let e1 = self.frames[c1].entries[idx[1]];
        if !e1.is_valid() {
            return Err(MapError::NotMapped);
        }
        if e1.is_leaf() {
            return Err(MapError::LeafInPath);
        }
        proof {
            assert(self.slot(c1 as int, idx[1] as int).branch());
            assert(self.link_ok(c1 as int, idx[1] as int));
        }
        let c0 = self.frames[c1].links[idx[1]];
        proof {
            assert(self.frames@[c0 as int].shape_ok());
        }
        Ok(c0)
    }

    /// Makes the tables that are missing on the path of `vpn` and returns
    /// the last-level table. No translation changes.
    fn reserve_path(&mut self, vpn: VirtPageNum, alloc: &mut BitmapFrameAllocator) -> (r: Result<
        usize,
        MapError,
    >)
        requires
            old(self).wf(),
            old(alloc).wf(),
            old(self).backed_by(old(alloc)),
        ensures
            final(self).wf(),
            final(alloc).wf(),
            final(self).backed_by(final(alloc)),
            final(alloc).start() == old(alloc).start(),
            final(alloc).end() == old(alloc).end(),
            final(self).ppns().len() >= old(self).ppns().len(),
            final(self).ppns().len() <= old(self).ppns().len() + 2,
            forall|i: int|
                0 <= i < old(self).ppns().len() ==> final(self).ppns()[i] == old(self).ppns()[i],
            forall|i: int|
                old(self).ppns().len() <= i < final(self).ppns().len() ==> old(alloc).is_free(
                    #[trigger] final(self).ppns()[i],
                ),
            forall|q: u64|
                final(alloc).is_allocated(q) == (old(alloc).is_allocated(q) || final(self).owns(q)),
            final(alloc).frames_in_use() - old(alloc).frames_in_use() == final(self).ppns().len()
                - old(self).ppns().len(),
            forall|v: u64| final(self).walk(v) == old(self).walk(v),
            forall|v: VirtPageNum| final(self).path_blocked(v) == old(self).path_blocked(v),
            match r {
                Ok(c) => {
                    &&& final(self).has_path(vpn.0)
                    &&& c == final(self).leaf_table(vpn.0)
                    &&& c < final(self).frames@.len()
                    &&& final(self).frames@[c as int].shape_ok()
                    &&& !old(self).path_blocked(vpn)
                    &&& old(alloc).free_count() >= old(self).missing_tables(vpn)
                    &&& final(self).ppns().len() == old(self).ppns().len() + old(self).missing_tables(vpn)
                },
                Err(MapError::LeafInPath) => {
                    &&& old(self).path_blocked(vpn)
                    &&& final(self).ppns() == old(self).ppns()
                },
                Err(MapError::OutOfMemory) => {
                    &&& !old(self).path_blocked(vpn)
                    &&& old(alloc).free_count() < old(self).missing_tables(vpn)
                    &&& final(alloc).free_count() == 0
                    &&& final(self).ppns().len() == old(self).ppns().len() + old(alloc).free_count()
                },
                Err(_) => false,
            },
    {
        let idx = vpn.indexes();
        proof {
            old(alloc).lemma_allocated_finite();
            assert(self.frames@[0].shape_ok());
        }
        let c1 = match self.ensure_child(0, idx[0], alloc) {
            Ok(c) => c,
            Err(e) => {
                proof {
                    assert(self.ppns() =~= old(self).ppns());
                }
                return Err(e);
            },
        };
        let ghost mid = *self;
        let ghost mid_alloc = *alloc;
        proof {
            assert(self.link_ok(0, idx[0] as int));
            mid_alloc.lemma_allocated_finite();
        }
        let c0 = match self.ensure_child(c1, idx[1], alloc) {
            Ok(c) => c,
            Err(e) => {
                proof {
                    assert(self.frames@ == mid.frames@);
                    self.lemma_grown(*old(self), *old(alloc), *alloc);
                }
                return Err(e);
            },
        };
        proof {
            assert(self.link_ok(c1 as int, idx[1] as int));
            assert(self.frames@[c0 as int].shape_ok());
            assert(self.slot(0, idx[0] as int) == mid.slot(0, idx[0] as int));
            assert(self.has_path(vpn.0));
            self.lemma_grown(*old(self), *old(alloc), *alloc);
            alloc.lemma_allocated_finite();
        }
        Ok(c0)
    }

    /// Makes the tables that are missing on the path of `vpn`, so that a
    /// later `map` of the page needs no frame. No translation changes.
    ///
    /// Fails with `LeafInPath` if a higher entry on the path maps a page,
    /// and with `OutOfMemory` if fewer frames are free than tables are
    /// missing: the tables that could be made stay, and no frame is left.
    pub fn reserve(&mut self, vpn: VirtPageNum, alloc: &mut BitmapFrameAllocator) -> (r: Result<
        (),
        MapError,
    >)
        requires
            old(self).wf(),
            old(alloc).wf(),
            old(self).backed_by(old(alloc)),
        ensures
            final(self).wf(),
            final(alloc).wf(),
            final(self).backed_by(final(alloc)),
            final(alloc).start() == old(alloc).start(),
            final(alloc).end() == old(alloc).end(),
            final(self).ppns().len() >= old(self).ppns().len(),
            final(self).ppns().len() <= old(self).ppns().len() + 2,
            forall|i: int|
                0 <= i < old(self).ppns().len() ==> final(self).ppns()[i] == old(self).ppns()[i],
            forall|i: int|
                old(self).ppns().len() <= i < final(self).ppns().len() ==> old(alloc).is_free(
                    #[trigger] final(self).ppns()[i],
                ),
            forall|q: u64|
                final(alloc).is_allocated(q) == (old(alloc).is_allocated(q) || final(self).owns(q)),
            final(alloc).frames_in_use() - old(alloc).frames_in_use() == final(self).ppns().len()
                - old(self).ppns().len(),
            forall|v: VirtPageNum| final(self).translate_spec(v) == old(self).translate_spec(v),
            forall|v: VirtPageNum| final(self).path_blocked(v) == old(self).path_blocked(v),
            match r {
                Ok(()) => {
                    &&& final(self).missing_tables(vpn) == 0
                    &&& !final(self).path_blocked(vpn)
                    &&& !old(self).path_blocked(vpn)
                    &&& old(alloc).free_count() >= old(self).missing_tables(vpn)
                    &&& final(self).ppns().len() == old(self).ppns().len() + old(self).missing_tables(vpn)
                },
                Err(MapError::LeafInPath) => {
                    &&& old(self).path_blocked(vpn)
                    &&& final(self).ppns() == old(self).ppns()
                },
                Err(MapError::OutOfMemory) => {
                    &&& !old(self).path_blocked(vpn)
                    &&& old(alloc).free_count() < old(self).missing_tables(vpn)
                    &&& final(alloc).free_count() == 0
                    &&& final(self).ppns().len() == old(self).ppns().len() + old(alloc).free_count()
                },
                Err(_) => false,
            },
    {
        match self.reserve_path(vpn, alloc) {
            Ok(_) => Ok(()),
            Err(e) => Err(e),
        }
    }

    /// Maps `vpn` to `ppn` with `flags` and the valid flag, making the
    /// tables on the way that are missing.
    ///
    /// Fails with `LeafInPath` if a higher entry on the path maps a page,
    /// with `OutOfMemory` if fewer frames are free than tables are missing
    /// (the tables that could be made stay, and no frame is left), and
    /// with `AlreadyMapped` if the page translates already.
    pub fn map(
        &mut self,
        vpn: VirtPageNum,
        ppn: PhysPageNum,
        flags: PTEFlags,
        alloc: &mut BitmapFrameAllocator,
    ) -> (r: Result<(), MapError>)
        requires
            old(self).wf(),
            old(alloc).wf(),
            old(self).backed_by(old(alloc)),
            ppn.wf(),
        ensures
            final(self).wf(),
            final(alloc).wf(),
            final(self).backed_by(final(alloc)),
            final(alloc).start() == old(alloc).start(),
            final(alloc).end() == old(alloc).end(),
            final(self).ppns().len() >= old(self).ppns().len(),
            final(self).ppns().len() <= old(self).ppns().len() + 2,
            forall|i: int|
                0 <= i < old(self).ppns().len() ==> final(self).ppns()[i] == old(self).ppns()[i],
            forall|i: int|
                old(self).ppns().len() <= i < final(self).ppns().len() ==> old(alloc).is_free(
                    #[trigger] final(self).ppns()[i],
                ),
            forall|q: u64|
                final(alloc).is_allocated(q) == (old(alloc).is_allocated(q) || final(self).owns(q)),
            final(alloc).frames_in_use() - old(alloc).frames_in_use() == final(self).ppns().len()
                - old(self).ppns().len(),
            forall|v: VirtPageNum|
                !same_path(v.0, vpn.0) ==> final(self).translate_spec(v) == old(self).translate_spec(v),
            r is Err ==> forall|v: VirtPageNum|
                final(self).translate_spec(v) == old(self).translate_spec(v),
            forall|v: VirtPageNum| final(self).path_blocked(v) == old(self).path_blocked(v),
            match r {
                Ok(()) => {
                    &&& final(self).translate_spec(vpn) == Some((ppn, PTEFlags(flags.0 | 1)))
                    &&& !old(self).path_blocked(vpn)
                    &&& old(self).translate_spec(vpn) is None
                    &&& old(alloc).free_count() >= old(self).missing_tables(vpn)
                    &&& final(self).ppns().len() == old(self).ppns().len() + old(self).missing_tables(vpn)
                },
                Err(MapError::LeafInPath) => {
                    &&& old(self).path_blocked(vpn)
                    &&& final(self).ppns() == old(self).ppns()
                },
                Err(MapError::OutOfMemory) => {
                    &&& !old(self).path_blocked(vpn)
                    &&& old(alloc).free_count() < old(self).missing_tables(vpn)
                    &&& final(alloc).free_count() == 0
                    &&& final(self).ppns().len() == old(self).ppns().len() + old(alloc).free_count()
                },
                Err(MapError::AlreadyMapped) => {
                    &&& !old(self).path_blocked(vpn)
                    &&& old(self).translate_spec(vpn) is Some
                    &&& final(self).ppns() == old(self).ppns()
                },
                Err(_) => false,
            },
    {
        let idx = vpn.indexes();
        let c0 = match self.reserve_path(vpn, alloc) {
            Ok(c) => c,
            Err(e) => {
                return Err(e);
            },
        };
        let leaf = self.frames[c0].entries[idx[2]];
        if leaf.is_valid() {
            proof {
                assert(self.walk(vpn.0) is Some);
                old(self).lemma_translated(vpn);
                assert(self.ppns() =~= old(self).ppns());
                old(alloc).lemma_allocated_finite();
                alloc.lemma_allocated_finite();
            }
            return Err(MapError::AlreadyMapped);
        }
        proof {
            lemma_flag_bits(flags.0, 0, 0);
        }
        let pte = PageTableEntry::new_with_ppn(ppn, PTEFlags(flags.0 | PTEFlags::V));
        let ghost full = *self;
        self.write_leaf(c0, idx[2], pte, Ghost(vpn.0));
        proof {
            assert(self.ppns() == full.ppns());
            assert(forall|i: int|
                0 <= i < self.ppns().len() ==> alloc.is_allocated(#[trigger] self.ppns()[i]));
            assert(pte.valid());
            assert(full.walk(vpn.0) is None);
        }
        Ok(())
    }

    /// How the frames of a tree that only gained tables relate to the
    /// allocator that gave them.
    proof fn lemma_grown(
        &self,
        before: Self,
        alloc_before: BitmapFrameAllocator,
        alloc: BitmapFrameAllocator,
    )
        requires
            before.wf(),
            self.wf(),
            before.backed_by(&alloc_before),
            self.backed_by(&alloc),
            self.frames@.len() >= before.frames@.len(),
            forall|g: int|
                0 <= g < before.frames@.len() ==> self.frames@[g].ppn == before.frames@[g].ppn,
            forall|g: int|
                before.frames@.len() <= g < self.frames@.len() ==> alloc_before.is_free(
                    self.frames@[g].ppn.0,
                ),
            forall|q: u64|
                alloc.is_allocated(q) ==> alloc_before.is_allocated(q) || exists|g: int|
                    before.frames@.len() <= g < self.frames@.len() && self.frames@[g].ppn.0 == q,
            forall|q: u64| alloc_before.is_allocated(q) ==> alloc.is_allocated(q),
        ensures
            forall|i: int| 0 <= i < before.ppns().len() ==> self.ppns()[i] == before.ppns()[i],
            forall|i: int|
                before.ppns().len() <= i < self.ppns().len() ==> alloc_before.is_free(
                    #[trigger] self.ppns()[i],
                ),
            forall|q: u64| alloc.is_allocated(q) == (alloc_before.is_allocated(q) || self.owns(q)),
    {
        assert forall|q: u64|
            alloc.is_allocated(q) == (alloc_before.is_allocated(q) || self.owns(q)) by {
            if self.owns(q) {
                let i = choose|i: int| 0 <= i < self.ppns().len() && self.ppns()[i] == q;
                assert(alloc.is_allocated(self.ppns()[i]));
            }
            if alloc.is_allocated(q) && !alloc_before.is_allocated(q) {
                let g = choose|g: int|
                    before.frames@.len() <= g < self.frames@.len() && self.frames@[g].ppn.0 == q;
                assert(self.ppns()[g] == q);
            }
        }
    }

    /// Removes the mapping of `vpn` and returns the page it mapped to.
    /// Tables stay, also when they become empty.
    ///
    /// Fails with `LeafInPath` if a higher entry on the path maps a page,
    /// and with `NotMapped` if the page does not translate.
    pub fn unmap(&mut self, vpn: VirtPageNum) -> (r: Result<PhysPageNum, MapError>)
        requires
            old(self).wf(),
        ensures
            final(self).wf(),
            final(self).ppns() == old(self).ppns(),
            forall|v: VirtPageNum|
                !same_path(v.0, vpn.0) ==> final(self).translate_spec(v) == old(self).translate_spec(v),
            r is Err ==> *final(self) == *old(self),
            forall|v: VirtPageNum|
                final(self).path_blocked(v) == old(self).path_blocked(v)
                    && final(self).missing_tables(v) == old(self).missing_tables(v),
            match r {
                Ok(p) => {
                    &&& !old(self).path_blocked(vpn)
                    &&& old(self).translate_spec(vpn) is Some
                    &&& old(self).translate_spec(vpn).unwrap().0 == p
                    &&& final(self).translate_spec(vpn) is None
                },
                Err(MapError::LeafInPath) => {
                    &&& old(self).path_blocked(vpn)
                    &&& final(self).translate_spec(vpn) == old(self).translate_spec(vpn)
                },
                Err(MapError::NotMapped) => {
                    &&& !old(self).path_blocked(vpn)
                    &&& old(self).translate_spec(vpn) is None
                    &&& final(self).translate_spec(vpn) is None
                },
                Err(_) => false,
            },
    {
        let idx = vpn.indexes();
        let c0 = match self.find_leaf_table(vpn) {
            Ok(c) => c,
            Err(e) => {
                return Err(e);
            },
        };
        let leaf = self.frames[c0].entries[idx[2]];
        if !leaf.is_valid() {
            return Err(MapError::NotMapped);
        }
        let ppn = leaf.ppn();
        let cleared = PageTableEntry::new();
        self.write_leaf(c0, idx[2], cleared, Ghost(vpn.0));
        Ok(ppn)
    }

    /// What `vpn` translates to: the page number and the flags of the first
    /// mapping entry on its path, or of the valid entry at the last level.
    pub fn translate(&self, vpn: VirtPageNum) -> (r: Option<(PhysPageNum, PTEFlags)>)
        requires
            self.wf(),
        ensures
            r == self.translate_spec(vpn),
    {
        let idx = vpn.indexes();
        proof {
            assert(self.frames@[0].shape_ok());
        }
        let e2 = self.frames[0].entries[idx[0]];
        if !e2.is_valid() {
            return None;
        }
        if e2.is_leaf() {
            return Some((e2.ppn(), e2.flags()));
        }
        proof {
            assert(self.slot(0, idx[0] as int).branch());
            assert(self.link_ok(0, idx[0] as int));
        }
        let c1 = self.frames[0].links[idx[0]];
        proof {
            assert(self.frames@[c1 as int].shape_ok());
        }
        let e1 = self.frames[c1].entries[idx[1]];
        if !e1.is_valid() {
            return None;
        }
        if e1.is_leaf() {
            return Some((e1.ppn(), e1.flags()));
        }
        proof {
            assert(self.slot(c1 as int, idx[1] as int).branch());
            assert(self.link_ok(c1 as int, idx[1] as int));
        }
        let c0 = self.frames[c1].links[idx[1]];
        proof {
            assert(self.frames@[c0 as int].shape_ok());
        }
        let e0 = self.frames[c0].entries[idx[2]];
        if e0.is_valid() {
            Some((e0.ppn(), e0.flags()))
        } else {
            None
        }
    }

    /// Gives the last-level mapping of `vpn` the flags `flags` and the valid
    /// flag; the page it maps to stays.
    ///
    /// Fails as `unmap` does, and changes nothing then.
    pub fn set_flags(&mut self, vpn: VirtPageNum, flags: PTEFlags) -> (r: Result<(), MapError>)
        requires
            old(self).wf(),
        ensures
            final(self).wf(),
            final(self).ppns() == old(self).ppns(),
            forall|v: VirtPageNum|
                !same_path(v.0, vpn.0) ==> final(self).translate_spec(v) == old(self).translate_spec(v),
            r is Err ==> *final(self) == *old(self),
            forall|v: VirtPageNum|
                final(self).path_blocked(v) == old(self).path_blocked(v)
                    && final(self).missing_tables(v) == old(self).missing_tables(v),
            match r {
                Ok(()) => {
                    &&& !old(self).path_blocked(vpn)
                    &&& old(self).translate_spec(vpn) is Some
                    &&& final(self).translate_spec(vpn) == Some(
                        (old(self).translate_spec(vpn).unwrap().0, PTEFlags(flags.0 | 1)),
                    )
                },
                Err(MapError::LeafInPath) => {
                    &&& old(self).path_blocked(vpn)
                    &&& final(self).translate_spec(vpn) == old(self).translate_spec(vpn)
                },
                Err(MapError::NotMapped) => {
                    &&& !old(self).path_blocked(vpn)
                    &&& old(self).translate_spec(vpn) is None
                    &&& final(self).translate_spec(vpn) is None
                },
                Err(_) => false,
            },
    {
        let idx = vpn.indexes();
        let c0 = match self.find_leaf_table(vpn) {
            Ok(c) => c,
            Err(e) => {
                return Err(e);
            },
        };
        let leaf = self.frames[c0].entries[idx[2]];
        if !leaf.is_valid() {
            return Err(MapError::NotMapped);
        }
        let ppn = leaf.ppn();
        proof {
            lemma_flag_bits(flags.0, 0, 0);
        }
        let pte = PageTableEntry::new_with_ppn(ppn, PTEFlags(flags.0 | PTEFlags::V));
        self.write_leaf(c0, idx[2], pte, Ghost(vpn.0));
        Ok(())
    }

    /// Entry `index` of the root table.
    pub closed spec fn root_entry(&self, index: int) -> PageTableEntry {
        self.frames@[0].entries@[index]
    }

    /// Makes every entry of the root table invalid.
    fn clear_root(&mut self)
        requires
            old(self).frames@.len() >= 1,
            old(self).frames@[0].shape_ok(),
        ensures
            final(self).frames@.len() == old(self).frames@.len(),
            forall|g: int|
                1 <= g < final(self).frames@.len() ==> final(self).frames@[g] == old(self).frames@[g],
            final(self).frames@[0].shape_ok(),
            final(self).frames@[0].is_empty(),
            final(self).frames@[0].ppn == old(self).frames@[0].ppn,
            final(self).frames@[0].level == old(self).frames@[0].level,
    {
        let mut i: usize = 0;
        while i < ENTRY_COUNT
            invariant
                i <= ENTRY_COUNT,
                self.frames@.len() >= 1,
                self.frames@.len() == old(self).frames@.len(),
                forall|g: int| 1 <= g < self.frames@.len() ==> self.frames@[g] == old(self).frames@[g],
                self.frames@[0].shape_ok(),
                self.frames@[0].ppn == old(self).frames@[0].ppn,
                self.frames@[0].level == old(self).frames@[0].level,
                forall|s: int| 0 <= s < i ==> !(#[trigger] self.frames@[0].entries@[s]).valid(),
            decreases ENTRY_COUNT - i,
        {
            self.frames[0].entries[i] = PageTableEntry::new();
            i += 1;
        }
    }

    /// Makes every entry of the root table invalid, so that no page
    /// translates. The tables below stay with the tree.
    pub fn clear(&mut self)
        requires
            old(self).wf(),
        ensures
            final(self).wf(),
            final(self).ppns() == old(self).ppns(),
            final(self).is_empty(),
            forall|i: int| 0 <= i < ENTRY_COUNT ==> !(#[trigger] final(self).root_entry(i)).valid(),
    {
        proof {
            assert(self.frames@[0].shape_ok());
        }
        self.clear_root();
        proof {
            assert forall|g: int| 0 <= g < self.frames@.len() implies (#[trigger] self.frames@[g]).shape_ok()
                && (g > 0 ==> self.frames@[g].level <= 1) by {
                assert(old(self).frames@[g].shape_ok());
            }
            assert forall|g: int, t: int|
                0 <= g < self.frames@.len() && 0 <= t < ENTRY_COUNT && self.frames@[g].level >= 1
                    && (#[trigger] self.slot(g, t)).branch() implies self.link_ok(g, t) by {
                if g == 0 {
                    assert(!self.frames@[0].entries@[t].valid());
                } else {
                    assert(old(self).slot(g, t).branch());
                    assert(old(self).link_ok(g, t));
                }
            }
            assert forall|f: int, g: int|
                0 <= f < self.frames@.len() && 0 <= g < self.frames@.len() && f != g implies (
            #[trigger] self.frames@[f]).ppn != (#[trigger] self.frames@[g]).ppn by {
                assert(old(self).frames@[f].ppn != old(self).frames@[g].ppn);
            }
            assert(self.ppns() =~= old(self).ppns());
            assert forall|v: VirtPageNum| self.translate_spec(v) is None by {
                assert(!self.frames@[0].entries@[index_at(v.0, 2)].valid());
            }
        }
    }

    /// Entry `index` of the root table.
    pub fn entry(&self, index: usize) -> (r: &PageTableEntry)
        requires
            self.wf(),
            index < ENTRY_COUNT,
        ensures
            *r == self.root_entry(index as int),
    {
        proof {
            assert(self.frames@[0].shape_ok());
        }
        &self.frames[0].entries[index]
    }

    /// Entry `index` of the root table, for changing it. The tree is as
    /// well formed afterwards as what is written makes it.
    pub fn entry_mut(&mut self, index: usize) -> (r: &mut PageTableEntry)
        requires
            old(self).wf(),
            index < ENTRY_COUNT,
        ensures
            *r == old(self).root_entry(index as int),
            final(self).root_entry(index as int) == *final(r),
            final(self).ppns() == old(self).ppns(),
            forall|i: int|
                0 <= i < ENTRY_COUNT && i != index ==> final(self).root_entry(i) == old(self).root_entry(i),
    {
        proof {
            assert(self.frames@[0].shape_ok());
        }
        &mut self.frames[0].entries[index]
    }

    /// Returns every table but the root to the allocator and empties the
    /// root, so that no page translates.
    pub fn dealloc_intermediate(&mut self, alloc: &mut BitmapFrameAllocator)
        requires
            old(self).wf(),
            old(alloc).wf(),
            old(self).backed_by(old(alloc)),
        ensures
            final(self).wf(),
            final(alloc).wf(),
            final(self).backed_by(final(alloc)),
            final(alloc).start() == old(alloc).start(),
            final(alloc).end() == old(alloc).end(),
            final(self).ppns() == seq![old(self).root()],
            final(self).is_empty(),
            forall|i: int| 0 <= i < ENTRY_COUNT ==> !(#[trigger] final(self).root_entry(i)).valid(),
            forall|q: u64|
                final(alloc).is_allocated(q) == (old(alloc).is_allocated(q) && (!old(self).owns(q)
                    || q == old(self).root())),
            final(alloc).frames_in_use() + old(self).ppns().len() - 1 == old(alloc).frames_in_use(),
    {
        proof {
            old(self).lemma_ppns();
            assert(self.frames@[0].shape_ok());
        }
        while self.frames.len() > 1
            invariant
                alloc.wf(),
                old(alloc).wf(),
                old(self).backed_by(old(alloc)),
                old(self).ppns().no_duplicates(),
                old(self).ppns().len() == old(self).frames@.len(),
                alloc.start() == old(alloc).start(),
                alloc.end() == old(alloc).end(),
                1 <= self.frames@.len() <= old(self).frames@.len(),
                forall|g: int| 0 <= g < self.frames@.len() ==> self.frames@[g] == old(self).frames@[g],
                forall|q: u64|
                    alloc.is_allocated(q) == (old(alloc).is_allocated(q) && !exists|g: int|
                        self.frames@.len() <= g < old(self).frames@.len() && old(self).ppns()[g]
                            == q),
                alloc.frames_in_use() + old(self).frames@.len() - self.frames@.len()
                    == old(alloc).frames_in_use(),
            decreases self.frames@.len(),
        {
            let ghost n = self.frames@.len() - 1;
            let t = self.frames.pop().unwrap();
            proof {
                assert(t == old(self).frames@[n]);
                assert(old(alloc).is_allocated(old(self).ppns()[n]));
                assert(old(self).ppns()[n] == t.ppn.0);
                assert(alloc.is_allocated(t.ppn.0)) by {
                    if exists|g: int|
                        n + 1 <= g < old(self).frames@.len() && old(self).ppns()[g] == t.ppn.0 {
                        let g = choose|g: int|
                            n + 1 <= g < old(self).frames@.len() && old(self).ppns()[g] == t.ppn.0;
                        assert(old(self).ppns()[g] != old(self).ppns()[n]);
                    }
                }
            }
            alloc.dealloc(t.ppn);
            proof {
                assert forall|q: u64|
                    alloc.is_allocated(q) == (old(alloc).is_allocated(q) && !exists|g: int|
                        self.frames@.len() <= g < old(self).frames@.len() && old(self).ppns()[g]
                            == q) by {
                    if q == t.ppn.0 {
                        assert(old(self).ppns()[n] == q);
                    } else {
                        if exists|g: int|
                            n <= g < old(self).frames@.len() && old(self).ppns()[g] == q {
                            let g = choose|g: int|
                                n <= g < old(self).frames@.len() && old(self).ppns()[g] == q;
                            assert(g != n);
                            assert(n + 1 <= g);
                        }
                    }
                }
            }
        }
        self.clear_root();
        proof {
            assert(self.frames@.len() == 1);
            assert(self.ppns() =~= seq![old(self).root()]);
            assert forall|v: VirtPageNum| self.translate_spec(v) is None by {
                assert(!self.frames@[0].entries@[index_at(v.0, 2)].valid());
            }
            assert forall|g: int, t: int|
                0 <= g < self.frames@.len() && 0 <= t < ENTRY_COUNT && self.frames@[g].level >= 1
                    && (#[trigger] self.slot(g, t)).branch() implies self.link_ok(g, t) by {
                assert(!self.frames@[0].entries@[t].valid());
            }
            assert forall|q: u64|
                alloc.is_allocated(q) == (old(alloc).is_allocated(q) && (!old(self).owns(q) || q
                    == old(self).root())) by {
                if old(self).owns(q) && q != old(self).root() {
                    let g = choose|g: int| 0 <= g < old(self).ppns().len() && old(self).ppns()[g] == q;
                    assert(1 <= g < old(self).frames@.len() && old(self).ppns()[g] == q);
                }
                if exists|g: int| 1 <= g < old(self).frames@.len() && old(self).ppns()[g] == q {
                    let g = choose|g: int|
                        1 <= g < old(self).frames@.len() && old(self).ppns()[g] == q;
                    assert(old(self).ppns()[g] != old(self).ppns()[0]);
                }
            }
            assert(old(alloc).is_allocated(old(self).ppns()[0]));
            assert(alloc.is_allocated(self.ppns()[0]));
        }
    }

    /// Number of frames that hold tables of the tree.
    pub fn frame_count(&self) -> (r: usize)
        ensures
            r == self.ppns().len(),
    {
        self.frames.len()
    }
}

} // verus!
