//! The address space of a user program, built from its ELF image.

use vstd::prelude::*;
use crate::config::{TRAMPOLINE, TRAP_CONTEXT, USER_STACK_BOTTOM, USER_STACK_TOP};
use crate::loader::{parse_elf, parse_spec, views, ElfError, Segment, SegmentView, PF_R, PF_W, PF_X};
use crate::mm::frame_allocator::BitmapFrameAllocator;
use crate::mm::memory_layout::{
    align_up, index_at, lemma_index_bits, same_path, PhysPageNum, VirtPageNum,
};
use crate::mm::memory_set::{
    frames_for, lemma_frames_for, MapArea, MapPermission, MapType, MemorySet, HIGH_VPN_START,
    LOW_VPN_END, TRAMPOLINE_VPN, TRAP_CONTEXT_VPN,
};
use crate::mm::page_table::{lemma_flag_bits, MapError, PTEFlags};

verus! {

/// Why an address space could not be built from an image.
#[derive(Copy, Clone, Debug, PartialEq, Eq, Structural)]
pub enum LoadError {
    /// The image was refused.
    Image(ElfError),
    /// A page could not be mapped.
    Memory(MapError),
    /// The table of tasks has no free slot.
    NoSlot,
}

/// The permissions of a segment with the flags `flags`: user access, and
/// read, write and execute as the flags say.
pub open spec fn segment_perm(flags: u32) -> u8 {
    (0x10 + (if flags & PF_R != 0 {
        0x02int
    } else {
        0
    }) + (if flags & PF_W != 0 {
        0x04int
    } else {
        0
    }) + (if flags & PF_X != 0 {
        0x08int
    } else {
        0
    })) as u8
}

/// One past the last page of a segment, or nothing if its end lies beyond
/// the address space.
pub open spec fn segment_end(seg: SegmentView) -> Option<u64> {
    if seg.vaddr + seg.memsz + 4095 <= u64::MAX {
        Some(((seg.vaddr + seg.memsz + 4095) / 4096) as u64)
    } else {
        None
    }
}

/// Number of pages of a segment.
pub open spec fn segment_pages(seg: SegmentView) -> int {
    match segment_end(seg) {
        Some(e) => e - seg.vaddr / 4096,
        None => 0,
    }
}

/// Number of frames that loading a segment takes at most: one for each
/// of its pages and the tables that its pages need when none is there.
pub open spec fn segment_cost(seg: SegmentView) -> int {
    match segment_end(seg) {
        Some(e) => frames_for(MapType::Framed, seg.vaddr as int / 4096, e as int),
        None => 0,
    }
}

/// Number of free frames with which the first `n` segments are loaded
/// whatever they are: ten for the root table, the two tables of the
/// trampoline, the trap frame and the two pages of the user stack with
/// two tables each, and for each segment its cost.
pub open spec fn load_budget(segs: Seq<SegmentView>, n: int) -> int
    decreases n,
{
    if n <= 0 {
        10
    } else {
        load_budget(segs, n - 1) + segment_cost(segs[n - 1])
    }
}

/// The budget grows with the segments.
pub proof fn lemma_budget_grows(segs: Seq<SegmentView>, i: int, n: int)
    requires
        0 <= i <= n,
    ensures
        10 <= load_budget(segs, i) <= load_budget(segs, n),
    decreases n,
{
    if n > 0 {
        lemma_segment_cost(segs[n - 1]);
        if i < n {
            lemma_budget_grows(segs, i, n - 1);
        } else {
            lemma_budget_grows(segs, i - 1, n - 1);
        }
    }
}

/// A segment costs no less than a part of its pages.
pub proof fn lemma_segment_cost(seg: SegmentView)
    ensures
        segment_cost(seg) >= 0,
        segment_end(seg) is Some ==> forall|v: int|
            seg.vaddr / 4096 <= v <= segment_end(seg).unwrap() ==> 0 <= #[trigger] frames_for(
                MapType::Framed,
                v,
                segment_end(seg).unwrap() as int,
            ) <= segment_cost(seg),
{
    if segment_end(seg) is Some {
        let e = segment_end(seg).unwrap() as int;
        lemma_frames_for(MapType::Framed, seg.vaddr as int / 4096, seg.vaddr as int / 4096, e, e);
        assert forall|v: int| seg.vaddr / 4096 <= v <= e implies 0 <= #[trigger] frames_for(
            MapType::Framed,
            v,
            e,
        ) <= segment_cost(seg) by {
            lemma_frames_for(MapType::Framed, seg.vaddr as int / 4096, v, e, e);
        }
    }
}

/// Whether page `v` is one of the pages of the segment.
pub open spec fn in_segment(seg: SegmentView, v: u64) -> bool {
    segment_end(seg) is Some && seg.vaddr / 4096 <= v < segment_end(seg).unwrap()
}

/// Whether the image holds a byte for address `a` of the segment.
pub open spec fn in_data(seg: SegmentView, a: u64) -> bool {
    seg.vaddr <= a < seg.vaddr + seg.data.len()
}

/// Whether page `v` shares its path through a page table with a page of
/// the segment.
pub open spec fn seg_touches(seg: SegmentView, v: u64) -> bool {
    exists|x: u64| in_segment(seg, x) && #[trigger] same_path(v, x)
}

/// Whether a page of the segment is the trampoline page, or shares its
/// path through a page table.
pub open spec fn on_trampoline(seg: SegmentView) -> bool {
    exists|u: u64| in_segment(seg, u) && #[trigger] same_path(u, TRAMPOLINE_VPN)
}

/// The first page number from `v` on that shares its path with the
/// trampoline page has the low 27 bits of `v` set.
proof fn lemma_top_bits(v: u64, w: u64)
    by (bit_vector)
    ensures
        (v | 0x7FF_FFFF) >= v,
        ((v | 0x7FF_FFFF) >> 18) & 0x1ff == 511,
        ((v | 0x7FF_FFFF) >> 9) & 0x1ff == 511,
        (v | 0x7FF_FFFF) & 0x1ff == 511,
        (w >= v && (w >> 18) & 0x1ff == 511 && (w >> 9) & 0x1ff == 511 && w & 0x1ff == 511) ==> w
            >= (v | 0x7FF_FFFF),
{
}

/// Whether a page from `vs` up to, but without, `ve` shares its path with
/// the trampoline page.
proof fn lemma_on_trampoline(vs: u64, ve: u64)
    ensures
        (vs | 0x7FF_FFFF) >= vs,
        same_path((vs | 0x7FF_FFFF) as u64, TRAMPOLINE_VPN),
        (vs | 0x7FF_FFFF) >= ve ==> forall|u: u64|
            vs <= u < ve ==> !#[trigger] same_path(u, TRAMPOLINE_VPN),
{
    let first = (vs | 0x7FF_FFFF) as u64;
    lemma_top_bits(vs, 0);
    lemma_index_bits(first);
    lemma_index_bits(TRAMPOLINE_VPN);
    assert(index_at(TRAMPOLINE_VPN, 2) == 511 && index_at(TRAMPOLINE_VPN, 1) == 511 && index_at(
        TRAMPOLINE_VPN,
        0,
    ) == 511);
    if first >= ve {
        assert forall|u: u64| vs <= u < ve implies !#[trigger] same_path(u, TRAMPOLINE_VPN) by {
            lemma_index_bits(u);
            lemma_top_bits(vs, u);
        }
    }
}

/// Whether a page of the segment is the page of the trap frame, or
/// shares its path through a page table.
pub open spec fn on_trap_frame(seg: SegmentView) -> bool {
    exists|u: u64| in_segment(seg, u) && #[trigger] same_path(u, TRAP_CONTEXT_VPN)
}

/// The first page number from `v` on that shares its path with the page
/// of the trap frame, if there is one: the low 27 bits of such a number
/// are all set but the last.
pub open spec fn next_trap_page(v: u64) -> Option<u64> {
    let c = (v & !0x7FF_FFFFu64) | 0x7FF_FFFE;
    if c >= v {
        Some(c)
    } else if c <= u64::MAX - 0x800_0000 {
        Some((c + 0x800_0000) as u64)
    } else {
        None
    }
}

/// What the bits say of `next_trap_page`.
proof fn lemma_trap_bits(v: u64, w: u64)
    by (bit_vector)
    ensures
        ({
            let c = (v & !0x7FF_FFFFu64) | 0x7FF_FFFE;
            &&& (c >> 18) & 0x1ff == 511 && (c >> 9) & 0x1ff == 511 && c & 0x1ff == 510
            &&& c >= v ==> ((w >= v && (w >> 18) & 0x1ff == 511 && (w >> 9) & 0x1ff == 511 && w
                & 0x1ff == 510) ==> w >= c)
            &&& c < v && c <= 0xFFFF_FFFF_F7FF_FFFFu64 ==> {
                let d = (c + 0x800_0000u64) as u64;
                &&& d >= v
                &&& (d >> 18) & 0x1ff == 511 && (d >> 9) & 0x1ff == 511 && d & 0x1ff == 510
                &&& (w >= v && (w >> 18) & 0x1ff == 511 && (w >> 9) & 0x1ff == 511 && w & 0x1ff
                    == 510) ==> w >= d
            }
            &&& c < v && c > 0xFFFF_FFFF_F7FF_FFFFu64 ==> !(w >= v && (w >> 18) & 0x1ff == 511 && (w
                >> 9) & 0x1ff == 511 && w & 0x1ff == 510)
        }),
{
}

/// Whether a page from `vs` up to, but without, `ve` shares its path with
/// the page of the trap frame.
proof fn lemma_on_trap_frame(vs: u64, ve: u64)
    ensures
        match next_trap_page(vs) {
            Some(f) => vs <= f && same_path(f, TRAP_CONTEXT_VPN) && (f >= ve ==> forall|u: u64|
                vs <= u < ve ==> !#[trigger] same_path(u, TRAP_CONTEXT_VPN)),
            None => forall|u: u64| vs <= u < ve ==> !#[trigger] same_path(u, TRAP_CONTEXT_VPN),
        },
{
    lemma_trap_bits(vs, 0);
    lemma_index_bits(TRAP_CONTEXT_VPN);
    assert(index_at(TRAP_CONTEXT_VPN, 2) == 511 && index_at(TRAP_CONTEXT_VPN, 1) == 511
        && index_at(TRAP_CONTEXT_VPN, 0) == 510);
    match next_trap_page(vs) {
        Some(f) => {
            lemma_index_bits(f);
        },
        None => {},
    }
    assert forall|u: u64| vs <= u < ve && #[trigger] same_path(u, TRAP_CONTEXT_VPN) implies (
    match next_trap_page(vs) {
        Some(f) => f <= u,
        None => false,
    }) by {
        lemma_index_bits(u);
        lemma_trap_bits(vs, u);
    }
}

/// Whether the segment cannot be loaded into `ms` because of where it
/// lies: it ends beyond the address space; its pages that do not
/// translate yet do not lie in one half of the canonical address space; or
/// the image holds a byte for it that falls outside its pages, or on a
/// page that translates but holds no bytes; or one of its pages is the
/// trampoline page or the page of the trap frame.
pub open spec fn misplaced(ms: MemorySet, seg: SegmentView) -> bool {
    ||| segment_end(seg) is None
    ||| exists|u: u64|
        in_segment(seg, u) && (#[trigger] ms.translate_spec(VirtPageNum(u))) is None && !(
        segment_end(seg).unwrap() <= LOW_VPN_END || u >= HIGH_VPN_START)
    ||| exists|a: u64|
        #[trigger] in_data(seg, a) && (!in_segment(seg, a / 4096) || (ms.byte_at(a) is None
            && ms.translate_spec(VirtPageNum(a / 4096)) is Some))
    ||| on_trampoline(seg)
    ||| on_trap_frame(seg)
}

/// Whether, among the pages of the segment, one that translates in `ms`
/// follows one that does not.
pub open spec fn interleaved(ms: MemorySet, seg: SegmentView) -> bool {
    exists|u: u64, w: u64|
        in_segment(seg, u) && in_segment(seg, w) && u < w && (#[trigger] ms.translate_spec(
            VirtPageNum(u),
        )) is None && (#[trigger] ms.translate_spec(VirtPageNum(w))) is Some
}

/// The byte at address `a` after the first `n` segments were loaded in
/// order into memory that held zeroes: the byte of the last of them whose
/// bytes reach `a`, or zero.
pub open spec fn image_byte(segs: Seq<SegmentView>, n: int, a: u64) -> u8
    decreases n,
{
    if n <= 0 {
        0
    } else if in_data(segs[n - 1], a) {
        segs[n - 1].data[a - segs[n - 1].vaddr]
    } else {
        image_byte(segs, n - 1, a)
    }
}

/// Where no segment has a byte, the image is zero.
pub proof fn lemma_image_zero(segs: Seq<SegmentView>, n: int, a: u64)
    requires
        0 <= n <= segs.len(),
        forall|j: int| 0 <= j < n ==> !in_data(#[trigger] segs[j], a),
    ensures
        image_byte(segs, n, a) == 0,
    decreases n,
{
    if n > 0 {
        lemma_image_zero(segs, n - 1, a);
    }
}

/// The permission bits of a segment.
pub fn permission_of(flags: u32) -> (r: MapPermission)
    ensures
        r.0 == segment_perm(flags),
        r.0 & 0x10 == 0x10,
{
    let mut bits: u8 = MapPermission::U;
    if flags & PF_R != 0 {
        bits = bits + MapPermission::R;
    }
    if flags & PF_W != 0 {
        bits = bits + MapPermission::W;
    }
    if flags & PF_X != 0 {
        bits = bits + MapPermission::X;
    }
    proof {
        assert(bits == 0x10 || bits == 0x12 || bits == 0x14 || bits == 0x16 || bits == 0x18 || bits
            == 0x1a || bits == 0x1c || bits == 0x1e);
        assert(bits & 0x10 == 0x10) by (bit_vector)
            requires
                bits == 0x10 || bits == 0x12 || bits == 0x14 || bits == 0x16 || bits == 0x18
                    || bits == 0x1a || bits == 0x1c || bits == 0x1e,
        ;
    }
    MapPermission(bits)
}

/// What loading leaves of the translations that were there: every page
/// that translated still translates to the same frame, with no flag lost,
/// and the address space has the regions it had, the same but for their
/// bytes, in front of those that it gained.
#[verifier::opaque]
pub open spec fn extends(after: MemorySet, before: MemorySet) -> bool {
    &&& after.trampoline_frame() == before.trampoline_frame()
    &&& after.table().root() == before.table().root()
    &&& after.regions().len() >= before.regions().len()
    &&& forall|i: int|
        0 <= i < before.regions().len() ==> (#[trigger] after.regions()[i]).same_shape(
            before.regions()[i],
        )
    &&& forall|v: VirtPageNum|
        before.translate_spec(v) is Some ==> {
            let t = #[trigger] after.translate_spec(v);
            &&& t is Some
            &&& t.unwrap().0 == before.translate_spec(v).unwrap().0
            &&& t.unwrap().1.has(before.translate_spec(v).unwrap().1)
        }
    &&& forall|q: u64| before.owns(q) ==> after.owns(q)
}

/// How the frames in use grew with an address space.
#[verifier::opaque]
pub open spec fn charged(
    after: MemorySet,
    before: MemorySet,
    alloc1: BitmapFrameAllocator,
    alloc0: BitmapFrameAllocator,
) -> bool {
    &&& alloc1.start() == alloc0.start()
    &&& alloc1.end() == alloc0.end()
    &&& forall|q: u64| alloc0.is_allocated(q) ==> alloc1.is_allocated(q)
    &&& forall|q: u64| after.owns(q) && !before.owns(q) ==> alloc0.is_free(q)
    &&& alloc1.frames_in_use() - alloc0.frames_in_use() == after.owned_count()
        - before.owned_count()
}

impl MemorySet {
    /// Gives the pages of the segment that translate already, counted from
    /// its first page, the permissions `perm` as well, and returns the
    /// first page that does not translate (or `end`).
    fn merge_leading(
        &mut self,
        start: u64,
        end: u64,
        perm: MapPermission,
        alloc: &BitmapFrameAllocator,
    ) -> (v: u64)
        requires
            old(self).wf(),
            old(self).backed_by(alloc),
            start <= end,
            forall|x: u64| start <= x < end ==> !#[trigger] same_path(x, TRAMPOLINE_VPN),
        ensures
            final(self).wf(),
            final(self).backed_by(alloc),
            final(self).regions() == old(self).regions(),
            final(self).owned_count() == old(self).owned_count(),
            forall|q: u64| final(self).owns(q) == old(self).owns(q),
            forall|a: u64| final(self).byte_at(a) == old(self).byte_at(a),
            extends(*final(self), *old(self)),
            forall|x: VirtPageNum|
                old(self).translate_spec(x) is None ==> final(self).translate_spec(x) is None,
            start <= v <= end,
            flags_merged(*old(self), *final(self), start, v, perm.0),
            v < end ==> final(self).translate_spec(VirtPageNum(v)) is None,
            forall|x: u64|
                start <= x < v ==> {
                    let t = #[trigger] final(self).translate_spec(VirtPageNum(x));
                    t is Some && t.unwrap().1.has(PTEFlags(perm.0 | 1))
                },
    {
        let mut v = start;
        proof {
            lemma_same(*self);
        }
        while v < end
            invariant
                start <= v <= end,
                forall|x: u64| start <= x < end ==> !#[trigger] same_path(x, TRAMPOLINE_VPN),
                self.wf(),
                old(self).wf(),
                self.backed_by(alloc),
                self.regions() == old(self).regions(),
                self.owned_count() == old(self).owned_count(),
                forall|q: u64| self.owns(q) == old(self).owns(q),
                forall|a: u64| self.byte_at(a) == old(self).byte_at(a),
                extends(*self, *old(self)),
                flags_merged(*old(self), *self, start, v, perm.0),
                forall|x: VirtPageNum|
                    old(self).translate_spec(x) is None ==> self.translate_spec(x) is None,
                forall|x: u64|
                    start <= x < v ==> {
                        let t = #[trigger] self.translate_spec(VirtPageNum(x));
                        t is Some && t.unwrap().1.has(PTEFlags(perm.0 | 1))
                    },
            decreases end - v,
        {
            let ghost prev = *self;
            match self.merge_permission(VirtPageNum(v), perm, alloc) {
                Err(_) => {
                    proof {
                        assert(!same_path(v, TRAMPOLINE_VPN));
                    }
                    return v;
                },
                Ok(()) => {
                    proof {
                        lemma_merge_step(*old(self), prev, *self, VirtPageNum(v), perm, start);
                        lemma_merge_flags(*old(self), prev, *self, VirtPageNum(v), perm.0, start);
                    }
                },
            }
            v += 1;
        }
        v
    }
}

impl MemorySet {
    /// Loads one segment: the pages of the segment that translate already
    /// (pages that it shares with what was loaded before) gain its
    /// permissions, the others are mapped to fresh frames in a new region
    /// with user access and the permissions of the segment, and the bytes
    /// that the image holds for the segment are written at its address.
    ///
    /// Every page that a page of the segment shares its path with then
    /// has exactly the flags that it had and the permissions of the
    /// segment; the flags of the other pages are as they were.
    ///
    /// Fails with `OutOfRange` if the segment ends beyond the address
    /// space, if one of its pages is the trampoline page, if a page of it
    /// cannot be mapped or if one of its bytes falls on a page that holds
    /// no bytes; with `AlreadyMapped` if a page that translates follows
    /// one that does not; and with `OutOfMemory`, which comes only when
    /// fewer frames are free than the cost of the segment. What was there
    /// before stays as it was.
    #[verifier::rlimit(100)]
    pub fn load_segment(&mut self, seg: &Segment, alloc: &mut BitmapFrameAllocator) -> (r: Result<
        (),
        MapError,
    >)
        requires
            old(self).wf(),
            old(alloc).wf(),
            old(self).backed_by(old(alloc)),
        ensures
            final(self).wf(),
            final(alloc).wf(),
            final(self).backed_by(final(alloc)),
            extends(*final(self), *old(self)),
            charged(*final(self), *old(self), *final(alloc), *old(alloc)),
            forall|a: u64|
                old(self).byte_at(a) is Some && (r is Err || !in_data(seg@, a))
                    ==> final(self).byte_at(a) == old(self).byte_at(a),
            forall|a: u64|
                old(self).byte_at(a) is None && final(self).byte_at(a) is Some && (r is Err
                    || !in_data(seg@, a)) ==> final(self).byte_at(a) == Some(0u8),
            final(self).owned_count() - old(self).owned_count() <= segment_cost(seg@),
            r == Err::<(), MapError>(MapError::OutOfMemory) ==> old(alloc).free_count()
                < segment_cost(seg@),
            match r {
                Ok(()) => {
                    &&& segment_end(seg@) is Some
                    &&& forall|v: u64|
                        in_segment(seg@, v) ==> {
                            let t = #[trigger] final(self).translate_spec(VirtPageNum(v));
                            t is Some && t.unwrap().1.has(PTEFlags(segment_perm(seg.flags) | 1))
                        }
                    &&& forall|a: u64|
                        in_data(seg@, a) ==> #[trigger] final(self).byte_at(a) == Some(
                            seg.data@[a - seg.vaddr],
                        )
                    &&& forall|v: VirtPageNum|
                        (#[trigger] final(self).translate_spec(v)) is Some <==> old(
                            self,
                        ).translate_spec(v) is Some || seg_touches(seg@, v.0)
                    &&& forall|a: u64|
                        (#[trigger] final(self).byte_at(a)) is Some <==> old(self).byte_at(a)
                            is Some || (in_segment(seg@, a / 4096) && old(self).translate_spec(
                            VirtPageNum(a / 4096),
                        ) is None)
                    &&& !misplaced(*old(self), seg@)
                    &&& !interleaved(*old(self), seg@)
                    &&& seg_flags(*old(self), *final(self), seg@)
                },
                Err(e) => {
                    &&& e == MapError::OutOfRange || e == MapError::AlreadyMapped || e
                        == MapError::OutOfMemory
                    &&& segment_end(seg@) is None ==> e == MapError::OutOfRange
                    &&& e == MapError::OutOfRange ==> misplaced(*old(self), seg@)
                    &&& e == MapError::AlreadyMapped ==> interleaved(*old(self), seg@)
                },
            },
    {
        let perm = permission_of(seg.flags);
        proof {
            lemma_segment_cost(seg@);
        }
        if seg.memsz > u64::MAX - 4095 || seg.vaddr > u64::MAX - 4095 - seg.memsz {
            proof {
                lemma_unchanged(*self, *alloc);
            }
            return Err(MapError::OutOfRange);
        }
        let end_va = align_up(seg.vaddr + seg.memsz);
        let vs = seg.vaddr / 4096;
        let ve = end_va / 4096;
        if (seg.vaddr as u128) + (seg.data.len() as u128) > (end_va as u128) {
            proof {
                lemma_unchanged(*self, *alloc);
                let last = seg.vaddr + seg.data.len() - 1;
                let a: u64 = if last > u64::MAX {
                    u64::MAX
                } else {
                    last as u64
                };
                assert(in_data(seg@, a));
                assert(!in_segment(seg@, a / 4096));
            }
            return Err(MapError::OutOfRange);
        }
        proof {
            lemma_on_trampoline(vs, ve);
        }
        if (vs | 0x7FF_FFFF) < ve {
            proof {
                lemma_unchanged(*self, *alloc);
                assert(in_segment(seg@, (vs | 0x7FF_FFFF) as u64));
                assert(on_trampoline(seg@));
            }
            return Err(MapError::OutOfRange);
        }
        proof {
            assert(!on_trampoline(seg@)) by {
                if on_trampoline(seg@) {
                    let u = choose|u: u64|
                        in_segment(seg@, u) && #[trigger] same_path(u, TRAMPOLINE_VPN);
                    assert(vs <= u < ve);
                }
            }
        }
        let block = (vs & !0x7FF_FFFFu64) | 0x7FF_FFFE;
        let trap_page = if block >= vs {
            Some(block)
        } else if block <= u64::MAX - 0x800_0000 {
            Some(block + 0x800_0000)
        } else {
            None
        };
        proof {
            lemma_on_trap_frame(vs, ve);
            assert(trap_page == next_trap_page(vs));
        }
        let hit = match trap_page {
            Some(f) => f < ve,
            None => false,
        };
        if hit {
            proof {
                lemma_unchanged(*self, *alloc);
                assert(in_segment(seg@, trap_page.unwrap()));
                assert(on_trap_frame(seg@));
            }
            return Err(MapError::OutOfRange);
        }
        proof {
            assert(!on_trap_frame(seg@)) by {
                if on_trap_frame(seg@) {
                    let u = choose|u: u64|
                        in_segment(seg@, u) && #[trigger] same_path(u, TRAP_CONTEXT_VPN);
                    assert(vs <= u < ve);
                }
            }
        }
        let v = self.merge_leading(vs, ve, perm, alloc);
        let ghost merged = *self;
        proof {
            lemma_segment_cost(seg@);
            assert(frames_for(MapType::Framed, v as int, ve as int) <= segment_cost(seg@));
            lemma_merged(*old(self), merged, *alloc);
        }
        let area = MapArea::new(v * 4096, end_va, MapType::Framed, perm);
        let ghost ga = area;
        if v < ve {
            match self.push(area, None, alloc) {
                Err(e) => {
                    proof {
                        lemma_load_failed(*old(self), merged, *self, *old(alloc), *alloc);
                        lemma_seg_push_failed(*old(self), merged, seg@, ga, v, e);
                    }
                    return Err(e);
                },
                Ok(()) => {
                    proof {
                        lemma_load_pushed(
                            *old(self),
                            merged,
                            *self,
                            ga,
                            *old(alloc),
                            *alloc,
                            vs,
                            v,
                            ve,
                            perm,
                        );
                    }
                },
            }
        }
        let ghost mapped = *self;
        let ghost pushed = v < ve;
        let written = self.write_bytes(seg.vaddr, seg.data.as_slice());
        proof {
            self.lemma_data_changed(mapped);
            lemma_load_written(*old(self), mapped, *self, *old(alloc), *alloc);
            lemma_load_bytes(*old(self), merged, mapped, *self, seg@, written, pushed, v, ve);
            lemma_seg_domain(*old(self), merged, mapped, *self, seg@, ga, v, pushed, written);
            if written {
                lemma_seg_fits(*old(self), merged, mapped, seg@, ga, v, pushed);
                lemma_seg_flags(*old(self), merged, mapped, *self, seg@, ga, v, pushed);
            }
        }
        if !written {
            return Err(MapError::OutOfRange);
        }
        Ok(())
    }
}

/// Merging takes no frame.
proof fn lemma_merged(first: MemorySet, merged: MemorySet, alloc: BitmapFrameAllocator)
    requires
        alloc.wf(),
        merged.owned_count() == first.owned_count(),
        forall|q: u64| merged.owns(q) == first.owns(q),
    ensures
        charged(merged, first, alloc, alloc),
{
    reveal(charged);
}

/// An address space extends itself.
proof fn lemma_same(ms: MemorySet)
    ensures
        extends(ms, ms),
{
    reveal(extends);
    assert forall|v: VirtPageNum| ms.translate_spec(v) is Some implies {
        let t = #[trigger] ms.translate_spec(v);
        t.unwrap().1.has(ms.translate_spec(v).unwrap().1)
    } by {
        lemma_flag_bits(ms.translate_spec(v).unwrap().1.0, 0, 0);
    }
}

/// Nothing changed.
proof fn lemma_unchanged(ms: MemorySet, alloc: BitmapFrameAllocator)
    requires
        alloc.wf(),
    ensures
        extends(ms, ms),
        charged(ms, ms, alloc, alloc),
{
    reveal(extends);
    reveal(charged);
    assert forall|v: VirtPageNum| ms.translate_spec(v) is Some implies {
        let t = #[trigger] ms.translate_spec(v);
        t.unwrap().1.has(ms.translate_spec(v).unwrap().1)
    } by {
        lemma_flag_bits(ms.translate_spec(v).unwrap().1.0, 0, 0);
    }
}

/// `extends` goes through a step in between.
proof fn lemma_extends_twice(a: MemorySet, b: MemorySet, c: MemorySet)
    requires
        extends(b, a),
        extends(c, b),
    ensures
        extends(c, a),
{
    reveal(extends);
    reveal(charged);
    assert forall|i: int| 0 <= i < a.regions().len() implies (#[trigger] c.regions()[i]).same_shape(
        a.regions()[i],
    ) by {
        assert(b.regions()[i].same_shape(a.regions()[i]));
        assert(c.regions()[i].same_shape(b.regions()[i]));
    }
    assert forall|v: VirtPageNum| a.translate_spec(v) is Some implies {
        let t = #[trigger] c.translate_spec(v);
        &&& t is Some
        &&& t.unwrap().0 == a.translate_spec(v).unwrap().0
        &&& t.unwrap().1.has(a.translate_spec(v).unwrap().1)
    } by {
        let tb = b.translate_spec(v);
        lemma_flag_bits(
            c.translate_spec(v).unwrap().1.0,
            tb.unwrap().1.0,
            a.translate_spec(v).unwrap().1.0,
        );
    }
    assert forall|q: u64| a.owns(q) implies c.owns(q) by {
        assert(b.owns(q));
    }
}

/// The push of the new region failed after the leading pages were merged.
proof fn lemma_load_failed(
    first: MemorySet,
    merged: MemorySet,
    cur: MemorySet,
    alloc0: BitmapFrameAllocator,
    alloc1: BitmapFrameAllocator,
)
    requires
        extends(merged, first),
        merged.owned_count() == first.owned_count(),
        forall|q: u64| merged.owns(q) == first.owns(q),
        cur.trampoline_frame() == merged.trampoline_frame(),
        cur.table().root() == merged.table().root(),
        cur.regions() == merged.regions(),
        forall|v: VirtPageNum| cur.translate_spec(v) == merged.translate_spec(v),
        forall|q: u64| merged.owns(q) ==> cur.owns(q),
        forall|q: u64| cur.owns(q) && !merged.owns(q) ==> alloc0.is_free(q),
        forall|q: u64| alloc0.is_allocated(q) ==> alloc1.is_allocated(q),
        alloc1.start() == alloc0.start(),
        alloc1.end() == alloc0.end(),
        alloc1.frames_in_use() - alloc0.frames_in_use() == cur.owned_count()
            - merged.owned_count(),
    ensures
        extends(cur, first),
        charged(cur, first, alloc1, alloc0),
{
    reveal(extends);
    reveal(charged);
    assert forall|v: VirtPageNum| merged.translate_spec(v) is Some implies {
        let t = #[trigger] cur.translate_spec(v);
        &&& t is Some
        &&& t.unwrap().0 == merged.translate_spec(v).unwrap().0
        &&& t.unwrap().1.has(merged.translate_spec(v).unwrap().1)
    } by {
        lemma_flag_bits(merged.translate_spec(v).unwrap().1.0, 0, 0);
    }
    assert(extends(cur, merged));
    lemma_extends_twice(first, merged, cur);
}

/// The new region was pushed after the leading pages were merged.
proof fn lemma_load_pushed(
    first: MemorySet,
    merged: MemorySet,
    cur: MemorySet,
    area: MapArea,
    alloc0: BitmapFrameAllocator,
    alloc1: BitmapFrameAllocator,
    vs: u64,
    v: u64,
    ve: u64,
    perm: MapPermission,
)
    requires
        cur.wf(),
        extends(merged, first),
        merged.owned_count() == first.owned_count(),
        forall|q: u64| merged.owns(q) == first.owns(q),
        vs <= v < ve,
        area.start() == v,
        area.end() == ve,
        area.perm() == perm,
        forall|x: u64|
            vs <= x < v ==> {
                let t = #[trigger] merged.translate_spec(VirtPageNum(x));
                t is Some && t.unwrap().1.has(PTEFlags(perm.0 | 1))
            },
        cur.trampoline_frame() == merged.trampoline_frame(),
        cur.table().root() == merged.table().root(),
        cur.regions().len() == merged.regions().len() + 1,
        forall|i: int|
            0 <= i < merged.regions().len() ==> cur.regions()[i] == merged.regions()[i],
        cur.regions().last().start() == area.start(),
        cur.regions().last().end() == area.end(),
        cur.regions().last().perm() == area.perm(),
        forall|x: VirtPageNum|
            merged.translate_spec(x) is Some ==> cur.translate_spec(x) == merged.translate_spec(x),
        forall|q: u64| merged.owns(q) ==> cur.owns(q),
        forall|q: u64| cur.owns(q) && !merged.owns(q) ==> alloc0.is_free(q),
        forall|q: u64| alloc0.is_allocated(q) ==> alloc1.is_allocated(q),
        alloc1.start() == alloc0.start(),
        alloc1.end() == alloc0.end(),
        alloc1.frames_in_use() - alloc0.frames_in_use() == cur.owned_count()
            - merged.owned_count(),
    ensures
        extends(cur, first),
        charged(cur, first, alloc1, alloc0),
        forall|x: u64|
            vs <= x < ve ==> {
                let t = #[trigger] cur.translate_spec(VirtPageNum(x));
                t is Some && t.unwrap().1.has(PTEFlags(perm.0 | 1))
            },
{
    reveal(extends);
    reveal(charged);
    assert forall|x: VirtPageNum| merged.translate_spec(x) is Some implies {
        let t = #[trigger] cur.translate_spec(x);
        &&& t is Some
        &&& t.unwrap().0 == merged.translate_spec(x).unwrap().0
        &&& t.unwrap().1.has(merged.translate_spec(x).unwrap().1)
    } by {
        lemma_flag_bits(merged.translate_spec(x).unwrap().1.0, 0, 0);
    }
    assert forall|i: int| 0 <= i < merged.regions().len() implies (#[trigger] cur.regions()[i]).same_shape(
        merged.regions()[i],
    ) by {}
    assert(extends(cur, merged));
    lemma_extends_twice(first, merged, cur);
    let n = merged.regions().len() as int;
    assert forall|x: u64| vs <= x < ve implies {
        let t = #[trigger] cur.translate_spec(VirtPageNum(x));
        t is Some && t.unwrap().1.has(PTEFlags(perm.0 | 1))
    } by {
        if x < v {
            let tm = merged.translate_spec(VirtPageNum(x));
            assert(tm is Some);
        } else {
            cur.lemma_region_translates(n, x - v);
            assert(cur.regions()[n].page(x - v) == VirtPageNum(x));
        }
    }
}

/// The bytes of the segment were written, or not.
proof fn lemma_load_written(
    first: MemorySet,
    mapped: MemorySet,
    cur: MemorySet,
    alloc0: BitmapFrameAllocator,
    alloc1: BitmapFrameAllocator,
)
    requires
        extends(mapped, first),
        charged(mapped, first, alloc1, alloc0),
        cur.table() == mapped.table(),
        cur.trampoline_frame() == mapped.trampoline_frame(),
        cur.regions().len() == mapped.regions().len(),
        forall|i: int|
            0 <= i < mapped.regions().len() ==> (#[trigger] cur.regions()[i]).same_shape(
                mapped.regions()[i],
            ),
        cur.owned_count() == mapped.owned_count(),
        forall|q: u64| cur.owns(q) == mapped.owns(q),
    ensures
        extends(cur, first),
        charged(cur, first, alloc1, alloc0),
{
    reveal(extends);
    reveal(charged);
    assert forall|x: VirtPageNum| mapped.translate_spec(x) is Some implies {
        let t = #[trigger] cur.translate_spec(x);
        &&& t is Some
        &&& t.unwrap().0 == mapped.translate_spec(x).unwrap().0
        &&& t.unwrap().1.has(mapped.translate_spec(x).unwrap().1)
    } by {
        lemma_flag_bits(mapped.translate_spec(x).unwrap().1.0, 0, 0);
    }
    assert(extends(cur, mapped));
    lemma_extends_twice(first, mapped, cur);
}

/// The bytes of the address space after a segment was loaded.
proof fn lemma_load_bytes(
    first: MemorySet,
    merged: MemorySet,
    mapped: MemorySet,
    cur: MemorySet,
    seg: SegmentView,
    written: bool,
    pushed: bool,
    v: u64,
    ve: u64,
)
    requires
        merged.wf(),
        mapped.wf(),
        forall|a: u64| merged.byte_at(a) == first.byte_at(a),
        !pushed ==> mapped == merged,
        pushed ==> mapped.regions().len() == merged.regions().len() + 1 && (forall|i: int|
            0 <= i < merged.regions().len() ==> mapped.regions()[i] == merged.regions()[i])
            && mapped.regions().last().start() == v && mapped.regions().last().end() == ve && v
            < ve && mapped.regions().last().kind() == MapType::Framed && (forall|a: u64|
            #[trigger] mapped.byte_at(a) == (if v <= a / 4096 < ve {
                Some(0u8)
            } else {
                merged.byte_at(a)
            })),
        forall|a: u64|
            #[trigger] cur.byte_at(a) == (if written && in_data(seg, a) {
                Some(seg.data[a - seg.vaddr])
            } else {
                mapped.byte_at(a)
            }),
    ensures
        forall|a: u64|
            first.byte_at(a) is Some && (!written || !in_data(seg, a)) ==> cur.byte_at(a)
                == first.byte_at(a),
        forall|a: u64|
            first.byte_at(a) is None && cur.byte_at(a) is Some && (!written || !in_data(seg, a))
                ==> cur.byte_at(a) == Some(0u8),
        forall|a: u64|
            written && in_data(seg, a) ==> #[trigger] cur.byte_at(a) == Some(
                seg.data[a - seg.vaddr],
            ),
{
    assert forall|a: u64|
        first.byte_at(a) is Some && (!written || !in_data(seg, a)) implies cur.byte_at(a)
        == first.byte_at(a) by {
        let m = merged.byte_at(a);
        let c = cur.byte_at(a);
        let p = mapped.byte_at(a);
        if pushed {
            let n = merged.regions().len() as int;
            let pg = a / 4096;
            if v <= pg < ve {
                let i = merged.holder(pg).unwrap();
                assert(merged.holds(i, pg));
                assert(mapped.regions()[i] == merged.regions()[i]);
                assert(mapped.holds(i, pg));
                mapped.lemma_holder(i, pg);
                mapped.lemma_region_translates(n, 0);
                assert(mapped.holds(n, pg));
                mapped.lemma_holder(n, pg);
            }
        }
    }
    assert forall|a: u64|
        first.byte_at(a) is None && cur.byte_at(a) is Some && (!written || !in_data(seg, a))
        implies cur.byte_at(a) == Some(0u8) by {
        let m = merged.byte_at(a);
        let c = cur.byte_at(a);
        let p = mapped.byte_at(a);
    }
}

/// The first page of the user stack.
pub const USER_STACK_VPN: u64 = 0x1_0000;

/// Whether page `v` shares its path with one of the pages that every user
/// address space begins with: the trampoline, the trap frame and the two
/// pages of the user stack.
pub open spec fn fixed_page(v: u64) -> bool {
    same_path(v, TRAMPOLINE_VPN) || same_path(v, TRAP_CONTEXT_VPN) || same_path(v, USER_STACK_VPN)
        || same_path(v, (USER_STACK_VPN + 1) as u64)
}

/// Whether page `v` translates before segment `n` is loaded: it shares
/// its path with a page that every user address space begins with, or
/// with a page of an earlier segment.
pub open spec fn taken(segs: Seq<SegmentView>, n: int, v: u64) -> bool {
    fixed_page(v) || exists|j: int| 0 <= j < n && seg_touches(#[trigger] segs[j], v)
}

/// Whether page `p` holds bytes before segment `n` is loaded: it is the
/// page of the trap frame, a page of the user stack, or a page of an
/// earlier segment that did not translate when that segment was loaded.
pub open spec fn held(segs: Seq<SegmentView>, n: int, p: u64) -> bool {
    p == TRAP_CONTEXT_VPN || p == USER_STACK_VPN || p == USER_STACK_VPN + 1 || exists|j: int|
        0 <= j < n && in_segment(#[trigger] segs[j], p) && !taken(segs, j, p)
}

/// Before segment `n` is loaded, the address space translates the pages
/// that are taken and holds bytes for the pages that are held, and for
/// no others.
#[verifier::opaque]
pub open spec fn settled(ms: MemorySet, segs: Seq<SegmentView>, n: int) -> bool {
    &&& forall|v: VirtPageNum| (#[trigger] ms.translate_spec(v)) is Some <==> taken(segs, n, v.0)
    &&& forall|a: u64| (#[trigger] ms.byte_at(a)) is Some <==> held(segs, n, a / 4096)
}

/// Whether, among the pages of segment `i`, one that is taken follows one
/// that is not.
pub open spec fn seg_interleaved(segs: Seq<SegmentView>, i: int) -> bool {
    exists|u: u64, w: u64|
        in_segment(segs[i], u) && in_segment(segs[i], w) && u < w && !#[trigger] taken(
            segs,
            i,
            u,
        ) && #[trigger] taken(segs, i, w)
}

/// Whether segment `i` cannot be loaded because of where it lies: it ends
/// beyond the address space; its pages that are not taken do not lie in
/// one half of the canonical address space; or the image holds a byte for
/// it that falls outside its pages, or on a page that is taken but holds
/// no bytes.
pub open spec fn seg_misplaced(segs: Seq<SegmentView>, i: int) -> bool {
    ||| segment_end(segs[i]) is None
    ||| exists|u: u64|
        in_segment(segs[i], u) && !#[trigger] taken(segs, i, u) && !(segment_end(
            segs[i],
        ).unwrap() <= LOW_VPN_END || u >= HIGH_VPN_START)
    ||| exists|a: u64|
        #[trigger] in_data(segs[i], a) && (!in_segment(segs[i], a / 4096) || (!held(
            segs,
            i,
            a / 4096,
        ) && taken(segs, i, a / 4096)))
    ||| on_trampoline(segs[i])
    ||| on_trap_frame(segs[i])
}

/// What an error says of the image that could not be loaded with `free`
/// frames at hand: the fault that reading it found; or, of its segments,
/// that they need more frames than there were, that one has a page that
/// is taken after one that is not, or that one is misplaced.
pub open spec fn load_failure(image: Seq<u8>, free: int, e: LoadError) -> bool {
    match e {
        LoadError::Image(f) => parse_spec(image) == Err::<(u64, Seq<SegmentView>), ElfError>(f),
        LoadError::Memory(f) => {
            &&& parse_spec(image) is Ok
            &&& f == MapError::OutOfRange || f == MapError::AlreadyMapped || f
                == MapError::OutOfMemory
            &&& f == MapError::OutOfMemory ==> free < load_budget(
                parse_spec(image).unwrap().1,
                parse_spec(image).unwrap().1.len() as int,
            )
            &&& f == MapError::AlreadyMapped ==> exists|i: int|
                0 <= i < parse_spec(image).unwrap().1.len() && #[trigger] seg_interleaved(
                    parse_spec(image).unwrap().1,
                    i,
                )
            &&& f == MapError::OutOfRange ==> exists|i: int|
                0 <= i < parse_spec(image).unwrap().1.len() && #[trigger] seg_misplaced(
                    parse_spec(image).unwrap().1,
                    i,
                )
        },
        LoadError::NoSlot => true,
    }
}

/// The flags of the pages that every user address space begins with:
/// the trampoline valid, readable and executable; the trap frame valid,
/// readable and writable; the user stack the same and open to the user.
pub open spec fn fixed_flags(x: u64) -> u8 {
    if same_path(x, TRAMPOLINE_VPN) {
        0x0b
    } else if same_path(x, TRAP_CONTEXT_VPN) {
        0x07
    } else if same_path(x, USER_STACK_VPN) || same_path(x, (USER_STACK_VPN + 1) as u64) {
        0x17
    } else {
        0
    }
}

/// The flags of page `x` once the first `n` segments are loaded: the
/// flags that it began with, and the permissions of every segment that
/// has a page on its path.
pub open spec fn page_flags(segs: Seq<SegmentView>, n: int, x: u64) -> u8
    decreases n,
{
    if n <= 0 {
        fixed_flags(x)
    } else if seg_touches(segs[n - 1], x) {
        page_flags(segs, n - 1, x) | segment_perm(segs[n - 1].flags) | 1
    } else {
        page_flags(segs, n - 1, x)
    }
}

/// Every page that translates has exactly the flags that the first `n`
/// segments give it.
#[verifier::opaque]
pub open spec fn flagged(ms: MemorySet, segs: Seq<SegmentView>, n: int) -> bool {
    forall|x: VirtPageNum|
        (#[trigger] ms.translate_spec(x)) is Some ==> ms.translate_spec(x).unwrap().1.0
            == page_flags(segs, n, x.0)
}

/// A page that is not taken has no flags.
proof fn lemma_untaken_flags(segs: Seq<SegmentView>, n: int, x: u64)
    requires
        0 <= n <= segs.len(),
        !taken(segs, n, x),
    ensures
        page_flags(segs, n, x) == 0,
    decreases n,
{
    if n > 0 {
        assert(!seg_touches(segs[n - 1], x));
        assert(!taken(segs, n - 1, x)) by {
            if taken(segs, n - 1, x) && !fixed_page(x) {
                let j = choose|j: int| 0 <= j < n - 1 && seg_touches(#[trigger] segs[j], x);
                assert(seg_touches(segs[j], x));
            }
        }
        lemma_untaken_flags(segs, n - 1, x);
    }
}

/// No segment that can be placed gives the page of the trap frame a
/// permission: it stays valid, readable and writable for the kernel
/// alone.
pub proof fn lemma_trap_flags(segs: Seq<SegmentView>, n: int)
    requires
        0 <= n <= segs.len(),
        placed(segs, n),
    ensures
        page_flags(segs, n, TRAP_CONTEXT_VPN) == 0x07,
    decreases n,
{
    lemma_index_bits(TRAP_CONTEXT_VPN);
    lemma_index_bits(TRAMPOLINE_VPN);
    assert(index_at(TRAP_CONTEXT_VPN, 0) == 510 && index_at(TRAMPOLINE_VPN, 0) == 511);
    if n > 0 {
        assert(!seg_misplaced(segs, n - 1));
        assert(!on_trap_frame(segs[n - 1]));
        if seg_touches(segs[n - 1], TRAP_CONTEXT_VPN) {
            let y = choose|y: u64|
                in_segment(segs[n - 1], y) && #[trigger] same_path(TRAP_CONTEXT_VPN, y);
            assert(same_path(y, TRAP_CONTEXT_VPN));
        }
        lemma_trap_flags(segs, n - 1);
    }
}

/// The pages that every user address space begins with have their
/// flags.
proof fn lemma_flagged_base(
    ms1: MemorySet,
    ms2: MemorySet,
    ms3: MemorySet,
    trap_area: MapArea,
    stack_area: MapArea,
    segs: Seq<SegmentView>,
)
    requires
        ms1.translate_spec(VirtPageNum(TRAMPOLINE_VPN)) is Some,
        ms1.translate_spec(VirtPageNum(TRAMPOLINE_VPN)).unwrap().1 == PTEFlags(0x0b),
        forall|x: VirtPageNum|
            ms1.translate_spec(x) is Some ==> ms2.translate_spec(x) == ms1.translate_spec(x),
        forall|x: VirtPageNum|
            ms2.translate_spec(x) is Some ==> ms3.translate_spec(x) == ms2.translate_spec(x),
        trap_area.start() == TRAP_CONTEXT_VPN,
        stack_area.start() == USER_STACK_VPN,
        ms2.translate_spec(trap_area.page(0)) is Some,
        ms2.translate_spec(trap_area.page(0)).unwrap().1 == PTEFlags(0x07),
        ms3.translate_spec(stack_area.page(0)) is Some,
        ms3.translate_spec(stack_area.page(0)).unwrap().1 == PTEFlags(0x17),
        ms3.translate_spec(stack_area.page(1)) is Some,
        ms3.translate_spec(stack_area.page(1)).unwrap().1 == PTEFlags(0x17),
        settled(ms3, segs, 0),
    ensures
        flagged(ms3, segs, 0),
{
    reveal(flagged);
    reveal(settled);
    assert forall|x: VirtPageNum| (#[trigger] ms3.translate_spec(x)) is Some implies ms3.translate_spec(
        x,
    ).unwrap().1.0 == page_flags(segs, 0, x.0) by {
        assert(taken(segs, 0, x.0));
        assert(fixed_page(x.0));
        let tramp = VirtPageNum(TRAMPOLINE_VPN);
        let trap = VirtPageNum(TRAP_CONTEXT_VPN);
        let t1 = ms1.translate_spec(tramp);
        let t2 = ms2.translate_spec(tramp);
        let t3 = ms2.translate_spec(trap);
        assert(trap_area.page(0) == trap);
        assert(stack_area.page(0) == VirtPageNum(USER_STACK_VPN));
        assert(stack_area.page(1) == VirtPageNum((USER_STACK_VPN + 1) as u64));
        if same_path(x.0, TRAMPOLINE_VPN) {
            ms3.table().lemma_same_path(x, tramp);
        } else if same_path(x.0, TRAP_CONTEXT_VPN) {
            ms3.table().lemma_same_path(x, trap);
        } else if same_path(x.0, USER_STACK_VPN) {
            ms3.table().lemma_same_path(x, stack_area.page(0));
        } else {
            ms3.table().lemma_same_path(x, stack_area.page(1));
        }
    }
}

/// The page of the trap frame translates, with the flags that the
/// segments give it.
proof fn lemma_trap_settled(ms: MemorySet, segs: Seq<SegmentView>, n: int)
    requires
        settled(ms, segs, n),
        flagged(ms, segs, n),
    ensures
        ms.translate_spec(VirtPageNum(TRAP_CONTEXT_VPN)) is Some,
        ms.translate_spec(VirtPageNum(TRAP_CONTEXT_VPN)).unwrap().1.0 == page_flags(
            segs,
            n,
            TRAP_CONTEXT_VPN,
        ),
{
    reveal(settled);
    reveal(flagged);
    assert(fixed_page(TRAP_CONTEXT_VPN));
    assert(taken(segs, n, TRAP_CONTEXT_VPN));
    let t = ms.translate_spec(VirtPageNum(TRAP_CONTEXT_VPN));
}

/// One more segment has given its permissions.
proof fn lemma_flagged_step(before: MemorySet, after: MemorySet, segs: Seq<SegmentView>, n: int)
    requires
        0 <= n < segs.len(),
        flagged(before, segs, n),
        settled(before, segs, n),
        seg_flags(before, after, segs[n]),
        forall|x: VirtPageNum|
            (#[trigger] after.translate_spec(x)) is Some <==> before.translate_spec(x) is Some
                || seg_touches(segs[n], x.0),
    ensures
        flagged(after, segs, n + 1),
{
    reveal(flagged);
    reveal(settled);
    assert forall|x: VirtPageNum| (#[trigger] after.translate_spec(x)) is Some implies after.translate_spec(
        x,
    ).unwrap().1.0 == page_flags(segs, n + 1, x.0) by {
        let t = before.translate_spec(x);
        if t is None {
            assert(!taken(segs, n, x.0));
            lemma_untaken_flags(segs, n, x.0);
            assert(seg_touches(segs[n], x.0));
        }
    }
}

/// After the trampoline is mapped into an empty address space, its page
/// alone translates.
proof fn lemma_stage_trampoline(ms0: MemorySet, ms1: MemorySet)
    requires
        ms0.table().is_empty(),
        forall|v: VirtPageNum|
            !same_path(v.0, TRAMPOLINE_VPN) ==> ms1.translate_spec(v) == ms0.translate_spec(v),
        ms1.translate_spec(VirtPageNum(TRAMPOLINE_VPN)) is Some,
    ensures
        forall|v: VirtPageNum|
            (#[trigger] ms1.translate_spec(v)) is Some <==> same_path(v.0, TRAMPOLINE_VPN),
{
    assert forall|v: VirtPageNum|
        (#[trigger] ms1.translate_spec(v)) is Some <==> same_path(v.0, TRAMPOLINE_VPN) by {
        if same_path(v.0, TRAMPOLINE_VPN) {
            ms1.table().lemma_same_path(v, VirtPageNum(TRAMPOLINE_VPN));
        } else {
            let t = ms0.table().translate_spec(v);
        }
    }
}

/// After the page of the trap frame is mapped as well, these two pages
/// translate, and the page of the trap frame holds bytes.
proof fn lemma_stage_trap(ms0: MemorySet, ms1: MemorySet, ms2: MemorySet, area: MapArea)
    requires
        forall|v: VirtPageNum|
            (#[trigger] ms1.translate_spec(v)) is Some <==> same_path(v.0, TRAMPOLINE_VPN),
        forall|a: u64| ms0.byte_at(a) is None,
        forall|a: u64| ms1.byte_at(a) == ms0.byte_at(a),
        area.start() == TRAP_CONTEXT_VPN,
        area.end() == TRAMPOLINE_VPN,
        forall|v: VirtPageNum|
            (#[trigger] ms2.translate_spec(v)) is Some <==> ms1.translate_spec(v) is Some
                || area.touches(0, area.page_count(), v),
        forall|a: u64|
            (#[trigger] ms2.byte_at(a)) is Some <==> (area.start() <= a / 4096 < area.end())
                || ms1.byte_at(a) is Some,
    ensures
        forall|v: VirtPageNum|
            (#[trigger] ms2.translate_spec(v)) is Some <==> same_path(v.0, TRAMPOLINE_VPN)
                || same_path(v.0, TRAP_CONTEXT_VPN),
        forall|a: u64| (#[trigger] ms2.byte_at(a)) is Some <==> a / 4096 == TRAP_CONTEXT_VPN,
{
    assert forall|v: VirtPageNum|
        (#[trigger] ms2.translate_spec(v)) is Some <==> same_path(v.0, TRAMPOLINE_VPN)
            || same_path(v.0, TRAP_CONTEXT_VPN) by {
        let t1 = ms1.translate_spec(v);
        if same_path(v.0, TRAP_CONTEXT_VPN) {
            assert(area.page(0) == VirtPageNum(TRAP_CONTEXT_VPN));
            assert(same_path(v.0, area.page(0).0));
        }
        if area.touches(0, area.page_count(), v) {
            let k = choose|k: int|
                0 <= k < area.page_count() && same_path(v.0, #[trigger] area.page(k).0);
            assert(area.page(k) == VirtPageNum(TRAP_CONTEXT_VPN));
        }
    }
    assert forall|a: u64| (#[trigger] ms2.byte_at(a)) is Some <==> a / 4096
        == TRAP_CONTEXT_VPN by {
        let b1 = ms1.byte_at(a);
        let b0 = ms0.byte_at(a);
    }
}

/// After the user stack is mapped as well, the address space is settled
/// for the first segment.
proof fn lemma_stage_stack(ms2: MemorySet, ms3: MemorySet, area: MapArea, segs: Seq<SegmentView>)
    requires
        forall|v: VirtPageNum|
            (#[trigger] ms2.translate_spec(v)) is Some <==> same_path(v.0, TRAMPOLINE_VPN)
                || same_path(v.0, TRAP_CONTEXT_VPN),
        forall|a: u64| (#[trigger] ms2.byte_at(a)) is Some <==> a / 4096 == TRAP_CONTEXT_VPN,
        area.start() == USER_STACK_VPN,
        area.end() == USER_STACK_VPN + 2,
        forall|v: VirtPageNum|
            (#[trigger] ms3.translate_spec(v)) is Some <==> ms2.translate_spec(v) is Some
                || area.touches(0, area.page_count(), v),
        forall|a: u64|
            (#[trigger] ms3.byte_at(a)) is Some <==> (area.start() <= a / 4096 < area.end())
                || ms2.byte_at(a) is Some,
    ensures
        settled(ms3, segs, 0),
{
    reveal(settled);
    assert forall|v: VirtPageNum| (#[trigger] ms3.translate_spec(v)) is Some <==> taken(
        segs,
        0,
        v.0,
    ) by {
        let t2 = ms2.translate_spec(v);
        if same_path(v.0, USER_STACK_VPN) {
            assert(area.page(0) == VirtPageNum(USER_STACK_VPN));
            assert(same_path(v.0, area.page(0).0));
        }
        if same_path(v.0, (USER_STACK_VPN + 1) as u64) {
            assert(area.page(1) == VirtPageNum((USER_STACK_VPN + 1) as u64));
            assert(same_path(v.0, area.page(1).0));
        }
        if area.touches(0, area.page_count(), v) {
            let k = choose|k: int|
                0 <= k < area.page_count() && same_path(v.0, #[trigger] area.page(k).0);
            assert(k == 0 || k == 1);
            assert(area.page(k).0 == USER_STACK_VPN + k);
        }
    }
    assert forall|a: u64| (#[trigger] ms3.byte_at(a)) is Some <==> held(segs, 0, a / 4096) by {
        let b2 = ms2.byte_at(a);
    }
}

/// Loading a segment keeps the address space settled.
proof fn lemma_settled_step(
    before: MemorySet,
    after: MemorySet,
    segs: Seq<SegmentView>,
    n: int,
)
    requires
        0 <= n < segs.len(),
        settled(before, segs, n),
        forall|v: VirtPageNum|
            (#[trigger] after.translate_spec(v)) is Some <==> before.translate_spec(v) is Some
                || seg_touches(segs[n], v.0),
        forall|a: u64|
            (#[trigger] after.byte_at(a)) is Some <==> before.byte_at(a) is Some || (in_segment(
                segs[n],
                a / 4096,
            ) && before.translate_spec(VirtPageNum(a / 4096)) is None),
    ensures
        settled(after, segs, n + 1),
{
    reveal(settled);
    assert forall|v: VirtPageNum| (#[trigger] after.translate_spec(v)) is Some <==> taken(
        segs,
        n + 1,
        v.0,
    ) by {
        let t = before.translate_spec(v);
        if taken(segs, n + 1, v.0) && !fixed_page(v.0) {
            let j = choose|j: int| 0 <= j < n + 1 && seg_touches(#[trigger] segs[j], v.0);
            if j < n {
                assert(taken(segs, n, v.0));
            }
        }
        if seg_touches(segs[n], v.0) {
            assert(taken(segs, n + 1, v.0));
        }
        if taken(segs, n, v.0) && !fixed_page(v.0) {
            let j = choose|j: int| 0 <= j < n && seg_touches(#[trigger] segs[j], v.0);
            assert(seg_touches(segs[j], v.0));
        }
    }
    assert forall|a: u64| (#[trigger] after.byte_at(a)) is Some <==> held(segs, n + 1, a / 4096) by {
        let p = a / 4096;
        let b = before.byte_at(a);
        let t = before.translate_spec(VirtPageNum(p));
        if held(segs, n + 1, p) && !(p == TRAP_CONTEXT_VPN || p == USER_STACK_VPN || p
            == USER_STACK_VPN + 1) {
            let j = choose|j: int|
                0 <= j < n + 1 && in_segment(#[trigger] segs[j], p) && !taken(segs, j, p);
            if j < n {
                assert(held(segs, n, p));
            }
        }
        if in_segment(segs[n], p) && t is None {
            assert(!taken(segs, n, p));
            assert(held(segs, n + 1, p));
        }
        if held(segs, n, p) && !(p == TRAP_CONTEXT_VPN || p == USER_STACK_VPN || p
            == USER_STACK_VPN + 1) {
            let j = choose|j: int|
                0 <= j < n && in_segment(#[trigger] segs[j], p) && !taken(segs, j, p);
            assert(in_segment(segs[j], p) && !taken(segs, j, p));
        }
    }
}

/// Whether each of the first `n` segments can be placed: none is
/// misplaced and none interleaved.
pub open spec fn placed(segs: Seq<SegmentView>, n: int) -> bool {
    forall|i: int| 0 <= i < n ==> !#[trigger] seg_misplaced(segs, i) && !seg_interleaved(segs, i)
}

/// A segment that was loaded can be placed, in terms of the image alone.
proof fn lemma_placed_step(before: MemorySet, segs: Seq<SegmentView>, n: int)
    requires
        0 <= n < segs.len(),
        settled(before, segs, n),
        placed(segs, n),
        !misplaced(before, segs[n]),
        !interleaved(before, segs[n]),
    ensures
        placed(segs, n + 1),
{
    reveal(settled);
    let seg = segs[n];
    if seg_interleaved(segs, n) {
        let (u, w) = choose|u: u64, w: u64|
            in_segment(segs[n], u) && in_segment(segs[n], w) && u < w && !#[trigger] taken(
                segs,
                n,
                u,
            ) && #[trigger] taken(segs, n, w);
        let tu = before.translate_spec(VirtPageNum(u));
        let tw = before.translate_spec(VirtPageNum(w));
        assert(tu is None && tw is Some);
    }
    if seg_misplaced(segs, n) {
        assert(!on_trampoline(seg));
        assert(!on_trap_frame(seg));
        if exists|u: u64|
            in_segment(segs[n], u) && !#[trigger] taken(segs, n, u) && !(segment_end(
                segs[n],
            ).unwrap() <= LOW_VPN_END || u >= HIGH_VPN_START) {
            let u = choose|u: u64|
                in_segment(segs[n], u) && !#[trigger] taken(segs, n, u) && !(segment_end(
                    segs[n],
                ).unwrap() <= LOW_VPN_END || u >= HIGH_VPN_START);
            let tu = before.translate_spec(VirtPageNum(u));
            assert(tu is None);
        } else {
            let a = choose|a: u64|
                #[trigger] in_data(segs[n], a) && (!in_segment(segs[n], a / 4096) || (!held(
                    segs,
                    n,
                    a / 4096,
                ) && taken(segs, n, a / 4096)));
            assert(in_data(seg, a));
            let b = before.byte_at(a);
            let t = before.translate_spec(VirtPageNum(a / 4096));
        }
    }
}

/// Why a segment could not be loaded, in terms of the image alone.
proof fn lemma_settled_errors(before: MemorySet, segs: Seq<SegmentView>, n: int, e: MapError)
    requires
        0 <= n < segs.len(),
        settled(before, segs, n),
        e == MapError::AlreadyMapped ==> interleaved(before, segs[n]),
        e == MapError::OutOfRange ==> misplaced(before, segs[n]),
    ensures
        e == MapError::AlreadyMapped ==> seg_interleaved(segs, n),
        e == MapError::OutOfRange ==> seg_misplaced(segs, n),
{
    reveal(settled);
    let seg = segs[n];
    if e == MapError::AlreadyMapped {
        let (u, w) = choose|u: u64, w: u64|
            in_segment(seg, u) && in_segment(seg, w) && u < w && (#[trigger] before.translate_spec(
                VirtPageNum(u),
            )) is None && (#[trigger] before.translate_spec(VirtPageNum(w))) is Some;
        assert(!taken(segs, n, u));
        assert(taken(segs, n, w));
    }
    if e == MapError::OutOfRange && segment_end(seg) is Some && !on_trampoline(seg)
        && !on_trap_frame(seg) {
        if exists|u: u64|
            in_segment(seg, u) && (#[trigger] before.translate_spec(VirtPageNum(u))) is None && !(
            segment_end(seg).unwrap() <= LOW_VPN_END || u >= HIGH_VPN_START) {
            let u = choose|u: u64|
                in_segment(seg, u) && (#[trigger] before.translate_spec(VirtPageNum(u))) is None
                    && !(segment_end(seg).unwrap() <= LOW_VPN_END || u >= HIGH_VPN_START);
            assert(!taken(segs, n, u));
        } else {
            let a = choose|a: u64|
                #[trigger] in_data(seg, a) && (!in_segment(seg, a / 4096) || (before.byte_at(a)
                    is None && before.translate_spec(VirtPageNum(a / 4096)) is Some));
            assert(in_data(seg, a));
            let b = before.byte_at(a);
            let t = before.translate_spec(VirtPageNum(a / 4096));
        }
    }
}

/// What holds of an address space while the segments of an image are
/// loaded into it, after the first `n` of them.
pub open spec fn loaded(ms: MemorySet, segs: Seq<SegmentView>, n: int) -> bool {
    &&& forall|j: int, v: u64|
        0 <= j < n && in_segment(#[trigger] segs[j], v) ==> {
            let t = #[trigger] ms.translate_spec(VirtPageNum(v));
            t is Some && t.unwrap().1.has(PTEFlags(segment_perm(segs[j].flags) | 1))
        }
    &&& forall|j: int, a: u64|
        0 <= j < n && in_data(#[trigger] segs[j], a) ==> (#[trigger] ms.byte_at(a)) is Some
    &&& forall|a: u64|
        (#[trigger] ms.byte_at(a)) is Some ==> ms.byte_at(a) == Some(image_byte(segs, n, a))
}

/// One more segment is loaded.
proof fn lemma_loaded_step(before: MemorySet, after: MemorySet, segs: Seq<SegmentView>, n: int)
    requires
        0 <= n < segs.len(),
        loaded(before, segs, n),
        extends(after, before),
        forall|a: u64|
            before.byte_at(a) is Some && !in_data(segs[n], a) ==> after.byte_at(a)
                == before.byte_at(a),
        forall|a: u64|
            before.byte_at(a) is None && after.byte_at(a) is Some && !in_data(segs[n], a)
                ==> after.byte_at(a) == Some(0u8),
        forall|v: u64|
            in_segment(segs[n], v) ==> {
                let t = #[trigger] after.translate_spec(VirtPageNum(v));
                t is Some && t.unwrap().1.has(PTEFlags(segment_perm(segs[n].flags) | 1))
            },
        forall|a: u64|
            in_data(segs[n], a) ==> #[trigger] after.byte_at(a) == Some(
                segs[n].data[a - segs[n].vaddr],
            ),
    ensures
        loaded(after, segs, n + 1),
{
    reveal(extends);
    reveal(charged);
    assert forall|j: int, v: u64| 0 <= j < n + 1 && in_segment(#[trigger] segs[j], v) implies {
        let t = #[trigger] after.translate_spec(VirtPageNum(v));
        t is Some && t.unwrap().1.has(PTEFlags(segment_perm(segs[j].flags) | 1))
    } by {
        if j < n {
            let tb = before.translate_spec(VirtPageNum(v));
            assert(tb is Some);
            lemma_flag_bits(
                after.translate_spec(VirtPageNum(v)).unwrap().1.0,
                tb.unwrap().1.0,
                segment_perm(segs[j].flags) | 1,
            );
        }
    }
    assert forall|j: int, a: u64| 0 <= j < n + 1 && in_data(#[trigger] segs[j], a) implies (
    #[trigger] after.byte_at(a)) is Some by {
        if j < n && !in_data(segs[n], a) {
            assert(before.byte_at(a) is Some);
        }
    }
    assert forall|a: u64| (#[trigger] after.byte_at(a)) is Some implies after.byte_at(a) == Some(
        image_byte(segs, n + 1, a),
    ) by {
        if !in_data(segs[n], a) {
            if before.byte_at(a) is None {
                assert forall|j: int| 0 <= j < n implies !in_data(#[trigger] segs[j], a) by {
                    if in_data(segs[j], a) {
                        assert(before.byte_at(a) is Some);
                    }
                }
                lemma_image_zero(segs, n, a);
            }
        }
    }
}

impl MemorySet {
    /// An address space with what every user address space begins with:
    /// the trampoline page, the page of the trap frame and the user
    /// stack. Returns nothing, with every frame given back, only when
    /// fewer than ten frames are free.
    #[verifier::rlimit(100)]
    fn user_base(
        trampoline: PhysPageNum,
        alloc: &mut BitmapFrameAllocator,
        Ghost(segs): Ghost<Seq<SegmentView>>,
    ) -> (r: Option<MemorySet>)
        requires
            old(alloc).wf(),
            trampoline.wf(),
        ensures
            final(alloc).wf(),
            final(alloc).start() == old(alloc).start(),
            final(alloc).end() == old(alloc).end(),
            forall|q: u64| old(alloc).is_allocated(q) ==> final(alloc).is_allocated(q),
            match r {
                Some(ms) => {
                    &&& ms.wf()
                    &&& ms.backed_by(final(alloc))
                    &&& ms.trampoline_frame() == Some(trampoline)
                    &&& user_layout(ms)
                    &&& fresh(ms, *final(alloc), *old(alloc))
                    &&& loaded(ms, segs, 0)
                    &&& settled(ms, segs, 0)
                    &&& flagged(ms, segs, 0)
                    &&& ms.owned_count() <= 10
                },
                None => {
                    &&& final(alloc).frames_in_use() == old(alloc).frames_in_use()
                    &&& old(alloc).free_count() < 10
                },
            },
    {
        proof {
            lemma_frames_for(
                MapType::Framed,
                TRAP_CONTEXT_VPN as int,
                TRAP_CONTEXT_VPN as int,
                TRAMPOLINE_VPN as int,
                TRAMPOLINE_VPN as int,
            );
            lemma_frames_for(
                MapType::Framed,
                USER_STACK_VPN as int,
                USER_STACK_VPN as int,
                USER_STACK_VPN + 2,
                USER_STACK_VPN + 2,
            );
        }
        let mut ms = match MemorySet::new_bare(alloc) {
            Some(ms) => ms,
            None => {
                return None;
            },
        };
        proof {
            old(alloc).lemma_allocated_finite();
        }
        let ghost ms0 = ms;
        let ghost al0 = *alloc;
        match ms.map_trampoline(trampoline, alloc) {
            Ok(()) => {},
            Err(e) => {
                proof {
                    lemma_fresh_step(ms0, ms, *old(alloc), al0, *alloc);
                    lemma_budget_step(
                        ms0,
                        ms,
                        *old(alloc),
                        al0,
                        *alloc,
                        1,
                        2,
                        e == MapError::OutOfMemory,
                    );
                }
                proof {
                    assert(e == MapError::OutOfMemory);
                }
                ms.give_back(alloc, Ghost(*old(alloc)));
                return None;
            },
        }
        proof {
            lemma_fresh_step(ms0, ms, *old(alloc), al0, *alloc);
            lemma_budget_step(ms0, ms, *old(alloc), al0, *alloc, 1, 2, false);
            lemma_stage_trampoline(ms0, ms);
        }
        let ghost ms1 = ms;
        let ghost al1 = *alloc;
        let trap_area = MapArea::new(
            TRAP_CONTEXT,
            TRAMPOLINE,
            MapType::Framed,
            MapPermission(0x06),
        );
        match ms.push(trap_area, None, alloc) {
            Ok(()) => {},
            Err(e) => {
                proof {
                    lemma_fresh_step(ms1, ms, *old(alloc), al1, *alloc);
                    lemma_budget_step(
                        ms1,
                        ms,
                        *old(alloc),
                        al1,
                        *alloc,
                        3,
                        3,
                        e == MapError::OutOfMemory,
                    );
                    if e == MapError::AlreadyMapped {
                        let k = choose|k: int|
                            0 <= k < trap_area.page_count() && ms1.translate_spec(
                                #[trigger] trap_area.page(k),
                            ) is Some;
                        assert(trap_area.page(k) == VirtPageNum(TRAP_CONTEXT_VPN));
                    }
                }
                proof {
                    assert(e == MapError::OutOfMemory);
                }
                ms.give_back(alloc, Ghost(*old(alloc)));
                return None;
            },
        }
        proof {
            lemma_fresh_step(ms1, ms, *old(alloc), al1, *alloc);
            lemma_budget_step(ms1, ms, *old(alloc), al1, *alloc, 3, 3, false);
            lemma_stage_trap(ms0, ms1, ms, trap_area);
        }
        let ghost ms2 = ms;
        let ghost al2 = *alloc;
        let stack_area = MapArea::new(
            USER_STACK_BOTTOM,
            USER_STACK_TOP,
            MapType::Framed,
            MapPermission(0x16),
        );
        match ms.push(stack_area, None, alloc) {
            Ok(()) => {},
            Err(e) => {
                proof {
                    lemma_fresh_step(ms2, ms, *old(alloc), al2, *alloc);
                    lemma_budget_step(
                        ms2,
                        ms,
                        *old(alloc),
                        al2,
                        *alloc,
                        6,
                        4,
                        e == MapError::OutOfMemory,
                    );
                    if e == MapError::AlreadyMapped {
                        let k = choose|k: int|
                            0 <= k < stack_area.page_count() && ms2.translate_spec(
                                #[trigger] stack_area.page(k),
                            ) is Some;
                        assert(stack_area.page(k).0 == USER_STACK_VPN + k);
                    }
                }
                proof {
                    assert(e == MapError::OutOfMemory);
                }
                ms.give_back(alloc, Ghost(*old(alloc)));
                return None;
            },
        }
        proof {
            lemma_fresh_step(ms2, ms, *old(alloc), al2, *alloc);
            lemma_budget_step(ms2, ms, *old(alloc), al2, *alloc, 6, 4, false);
            lemma_stage_stack(ms2, ms, stack_area, segs);
            assert(user_layout(ms));
            assert(loaded(ms, segs, 0));
            ms1.lemma_trampoline_translates();
            assert(0x06u8 | 1 == 0x07 && 0x16u8 | 1 == 0x17) by (bit_vector);
            lemma_flagged_base(ms1, ms2, ms, trap_area, stack_area, segs);
        }
        Some(ms)
    }

    /// Builds the address space of a user program from its ELF image:
    /// the trampoline page mapped to the shared frame `trampoline`, a
    /// page for the trap frame below it, the user stack, and the segments
    /// of the image in the order of their program headers.
    ///
    /// Returns the address space, the initial user stack pointer (the top
    /// of the user stack) and the entry point of the image. Every page
    /// then has exactly the flags that the segments on it give: the
    /// trampoline page is valid, readable and executable and nothing
    /// more, and a page of one segment alone has the permissions of that
    /// segment, user access and the valid flag. When the image is refused
    /// or a page cannot be mapped, every frame that was taken is given
    /// back.
    #[verifier::rlimit(100)]
    pub fn from_elf(
        elf_data: &[u8],
        trampoline: PhysPageNum,
        alloc: &mut BitmapFrameAllocator,
    ) -> (r: Result<(MemorySet, u64, u64), LoadError>)
        requires
            old(alloc).wf(),
            trampoline.wf(),
        ensures
            final(alloc).wf(),
            final(alloc).start() == old(alloc).start(),
            final(alloc).end() == old(alloc).end(),
            forall|q: u64| old(alloc).is_allocated(q) ==> final(alloc).is_allocated(q),
            match r {
                Ok((ms, user_sp, entry)) => {
                    &&& parse_spec(elf_data@) is Ok
                    &&& entry == parse_spec(elf_data@).unwrap().0
                    &&& user_sp == USER_STACK_TOP
                    &&& ms.wf()
                    &&& ms.backed_by(final(alloc))
                    &&& ms.trampoline_frame() == Some(trampoline)
                    &&& ms.translate_spec(VirtPageNum(TRAMPOLINE_VPN)) == Some(
                        (trampoline, PTEFlags(0x0b)),
                    )
                    &&& ms.translate_spec(VirtPageNum(TRAP_CONTEXT_VPN)) is Some
                    &&& ms.translate_spec(VirtPageNum(TRAP_CONTEXT_VPN)).unwrap().1 == PTEFlags(0x07)
                    &&& user_layout(ms)
                    &&& forall|q: u64| ms.owns(q) ==> old(alloc).is_free(q)
                    &&& final(alloc).frames_in_use() == old(alloc).frames_in_use()
                        + ms.owned_count()
                    &&& loaded(
                        ms,
                        parse_spec(elf_data@).unwrap().1,
                        parse_spec(elf_data@).unwrap().1.len() as int,
                    )
                    &&& settled(
                        ms,
                        parse_spec(elf_data@).unwrap().1,
                        parse_spec(elf_data@).unwrap().1.len() as int,
                    )
                    &&& placed(
                        parse_spec(elf_data@).unwrap().1,
                        parse_spec(elf_data@).unwrap().1.len() as int,
                    )
                    &&& flagged(
                        ms,
                        parse_spec(elf_data@).unwrap().1,
                        parse_spec(elf_data@).unwrap().1.len() as int,
                    )
                },
                Err(LoadError::Image(e)) => {
                    &&& parse_spec(elf_data@) == Err::<(u64, Seq<SegmentView>), ElfError>(e)
                    &&& final(alloc).frames_in_use() == old(alloc).frames_in_use()
                },
                Err(LoadError::Memory(e)) => {
                    &&& parse_spec(elf_data@) is Ok
                    &&& final(alloc).frames_in_use() == old(alloc).frames_in_use()
                    &&& e == MapError::OutOfRange || e == MapError::AlreadyMapped || e
                        == MapError::OutOfMemory
                    &&& e == MapError::OutOfMemory ==> old(alloc).free_count() < load_budget(
                        parse_spec(elf_data@).unwrap().1,
                        parse_spec(elf_data@).unwrap().1.len() as int,
                    )
                    &&& e == MapError::AlreadyMapped ==> exists|i: int|
                        0 <= i < parse_spec(elf_data@).unwrap().1.len() && #[trigger] seg_interleaved(
                            parse_spec(elf_data@).unwrap().1,
                            i,
                        )
                    &&& e == MapError::OutOfRange ==> exists|i: int|
                        0 <= i < parse_spec(elf_data@).unwrap().1.len() && #[trigger] seg_misplaced(
                            parse_spec(elf_data@).unwrap().1,
                            i,
                        )
                },
                Err(LoadError::NoSlot) => false,
            },
    {
        let (entry, segments) = match parse_elf(elf_data) {
            Ok(x) => x,
            Err(e) => {
                return Err(LoadError::Image(e));
            },
        };
        let ghost segs = views(segments@);
        let mut ms = match MemorySet::user_base(trampoline, alloc, Ghost(segs)) {
            Some(ms) => ms,
            None => {
                proof {
                    lemma_budget_grows(segs, 0, segs.len() as int);
                }
                return Err(LoadError::Memory(MapError::OutOfMemory));
            },
        };
        proof {
            old(alloc).lemma_allocated_finite();
            lemma_budget_grows(segs, 0, segs.len() as int);
        }
        let mut i: usize = 0;
        while i < segments.len()
            invariant
                i <= segments@.len(),
                segs == views(segments@),
                parse_spec(elf_data@) == Ok::<(u64, Seq<SegmentView>), ElfError>((entry, segs)),
                old(alloc).wf(),
                ms.wf(),
                alloc.wf(),
                ms.backed_by(alloc),
                ms.trampoline_frame() == Some(trampoline),
                user_layout(ms),
                fresh(ms, *alloc, *old(alloc)),
                loaded(ms, segs, i as int),
                settled(ms, segs, i as int),
                flagged(ms, segs, i as int),
                placed(segs, i as int),
                ms.owned_count() <= load_budget(segs, i as int),
            decreases segments@.len() - i,
        {
            let ghost before = ms;
            let ghost al = *alloc;
            let seg = &segments[i];
            proof {
                assert(segs[i as int] == seg@);
            }
            match ms.load_segment(seg, alloc) {
                Ok(()) => {
                    proof {
                        reveal(charged);
                        lemma_fresh_step(before, ms, *old(alloc), al, *alloc);
                        lemma_budget_step(
                            before,
                            ms,
                            *old(alloc),
                            al,
                            *alloc,
                            load_budget(segs, i as int),
                            segment_cost(segs[i as int]),
                            false,
                        );
                        lemma_loaded_step(before, ms, segs, i as int);
                        lemma_placed_step(before, segs, i as int);
                        lemma_flagged_step(before, ms, segs, i as int);
                        lemma_settled_step(before, ms, segs, i as int);
                        lemma_layout_kept(before, ms);
                    }
                },
                Err(e) => {
                    proof {
                        reveal(charged);
                        lemma_fresh_step(before, ms, *old(alloc), al, *alloc);
                        lemma_budget_step(
                            before,
                            ms,
                            *old(alloc),
                            al,
                            *alloc,
                            load_budget(segs, i as int),
                            segment_cost(segs[i as int]),
                            e == MapError::OutOfMemory,
                        );
                        lemma_budget_grows(segs, i + 1, segs.len() as int);
                        lemma_settled_errors(before, segs, i as int, e);
                        assert(0 <= i < segs.len());
                        assert(e == MapError::AlreadyMapped ==> seg_interleaved(segs, i as int));
                        assert(e == MapError::OutOfRange ==> seg_misplaced(segs, i as int));
                        assert(parse_spec(elf_data@).unwrap().1 == segs);
                    }
                    ms.give_back(alloc, Ghost(*old(alloc)));
                    return Err(LoadError::Memory(e));
                },
            }
            i += 1;
        }
        proof {
            ms.lemma_trampoline_translates();
            lemma_trap_flags(segs, segs.len() as int);
            lemma_trap_settled(ms, segs, segs.len() as int);
        }
        Ok((ms, USER_STACK_TOP, entry))
    }

    /// Gives every frame back when building failed.
    pub(crate) fn give_back(self, alloc: &mut BitmapFrameAllocator, Ghost(first): Ghost<BitmapFrameAllocator>)
        requires
            self.wf(),
            old(alloc).wf(),
            self.backed_by(old(alloc)),
            first.wf(),
            fresh(self, *old(alloc), first),
        ensures
            final(alloc).wf(),
            final(alloc).start() == first.start(),
            final(alloc).end() == first.end(),
            forall|q: u64| first.is_allocated(q) ==> final(alloc).is_allocated(q),
            final(alloc).frames_in_use() == first.frames_in_use(),
    {
        self.release(alloc);
        proof {
            assert forall|q: u64| first.is_allocated(q) implies alloc.is_allocated(q) by {
                assert(old(alloc).is_allocated(q));
                if self.owns(q) {
                    assert(first.is_free(q));
                }
            }
        }
    }
}

/// The two regions that every user address space begins with: the page
/// of the trap frame, readable and writable for the kernel alone, and
/// the user stack.
pub open spec fn user_layout(ms: MemorySet) -> bool {
    &&& ms.regions().len() >= 2
    &&& ms.regions()[0].start() == TRAP_CONTEXT_VPN
    &&& ms.regions()[0].end() == TRAMPOLINE_VPN
    &&& ms.regions()[0].kind() == MapType::Framed
    &&& ms.regions()[0].perm() == MapPermission(0x06)
    &&& ms.regions()[1].start() == USER_STACK_BOTTOM / 4096
    &&& ms.regions()[1].end() == USER_STACK_TOP / 4096
    &&& ms.regions()[1].kind() == MapType::Framed
    &&& ms.regions()[1].perm() == MapPermission(0x16)
}

/// Every frame of the address space was free in `first`, and nothing
/// else was taken since.
pub open spec fn fresh(ms: MemorySet, alloc: BitmapFrameAllocator, first: BitmapFrameAllocator) -> bool {
    &&& alloc.start() == first.start()
    &&& alloc.end() == first.end()
    &&& forall|q: u64| first.is_allocated(q) ==> alloc.is_allocated(q)
    &&& forall|q: u64| ms.owns(q) ==> first.is_free(q)
    &&& alloc.frames_in_use() == first.frames_in_use() + ms.owned_count()
}

/// A step that charges its frames keeps the address space fresh.
pub proof fn lemma_fresh_step(
    before: MemorySet,
    after: MemorySet,
    first: BitmapFrameAllocator,
    alloc0: BitmapFrameAllocator,
    alloc1: BitmapFrameAllocator,
)
    requires
        fresh(before, alloc0, first),
        alloc1.start() == alloc0.start(),
        alloc1.end() == alloc0.end(),
        forall|q: u64| alloc0.is_allocated(q) ==> alloc1.is_allocated(q),
        forall|q: u64| after.owns(q) && !before.owns(q) ==> alloc0.is_free(q),
        alloc1.frames_in_use() - alloc0.frames_in_use() == after.owned_count()
            - before.owned_count(),
    ensures
        fresh(after, alloc1, first),
{
    assert forall|q: u64| after.owns(q) implies first.is_free(q) by {
        if !before.owns(q) {
            assert(alloc0.is_free(q));
        }
    }
}

/// A step that takes at most `step` frames, and that fails for want of
/// memory only when fewer than `step` frames are free, fits the budget.
pub proof fn lemma_budget_step(
    before: MemorySet,
    after: MemorySet,
    first: BitmapFrameAllocator,
    alloc0: BitmapFrameAllocator,
    alloc1: BitmapFrameAllocator,
    budget: int,
    step: int,
    failed: bool,
)
    requires
        first.wf(),
        alloc0.wf(),
        fresh(before, alloc0, first),
        before.owned_count() <= budget,
        after.owned_count() - before.owned_count() <= step,
        failed ==> alloc0.free_count() < step,
    ensures
        after.owned_count() <= budget + step,
        failed ==> first.free_count() < budget + step,
{
    first.lemma_allocated_finite();
    alloc0.lemma_allocated_finite();
}

/// Loading keeps the first two regions.
proof fn lemma_layout_kept(before: MemorySet, after: MemorySet)
    requires
        user_layout(before),
        extends(after, before),
    ensures
        user_layout(after),
        after.trampoline_frame() == before.trampoline_frame(),
{
    reveal(extends);
    reveal(charged);
    assert(after.regions()[0].same_shape(before.regions()[0]));
    assert(after.regions()[1].same_shape(before.regions()[1]));
}

/// The new region of a segment could not be pushed.
proof fn lemma_seg_push_failed(
    first: MemorySet,
    merged: MemorySet,
    seg: SegmentView,
    area: MapArea,
    v: u64,
    e: MapError,
)
    requires
        segment_end(seg) is Some,
        seg.vaddr / 4096 <= v < segment_end(seg).unwrap(),
        area.start() == v,
        area.end() == segment_end(seg).unwrap(),
        area.kind() == MapType::Framed,
        extends(merged, first),
        forall|x: VirtPageNum|
            first.translate_spec(x) is None ==> (#[trigger] merged.translate_spec(x)) is None,
        merged.translate_spec(VirtPageNum(v)) is None,
        e == MapError::AlreadyMapped ==> exists|k: int|
            0 <= k < area.page_count() && merged.translate_spec(#[trigger] area.page(k)) is Some,
        e == MapError::OutOfRange ==> !area.range_ok(),
    ensures
        e == MapError::AlreadyMapped ==> interleaved(first, seg),
        e == MapError::OutOfRange ==> misplaced(first, seg),
{
    reveal(extends);
    reveal(charged);
    let t = first.translate_spec(VirtPageNum(v));
    assert(in_segment(seg, v));
    if e == MapError::AlreadyMapped {
        let k = choose|k: int|
            0 <= k < area.page_count() && merged.translate_spec(#[trigger] area.page(k)) is Some;
        let w = (v + k) as u64;
        assert(area.page(k) == VirtPageNum(w));
        assert(in_segment(seg, w));
        let tw = first.translate_spec(VirtPageNum(w));
        assert(tw is Some) by {
            if tw is None {
                assert(merged.translate_spec(VirtPageNum(w)) is None);
            }
        }
    }
}

/// A segment that was loaded is neither misplaced nor interleaved.
proof fn lemma_seg_fits(
    first: MemorySet,
    merged: MemorySet,
    mapped: MemorySet,
    seg: SegmentView,
    area: MapArea,
    v: u64,
    pushed: bool,
)
    requires
        segment_end(seg) is Some,
        seg.vaddr / 4096 <= v <= segment_end(seg).unwrap(),
        pushed == (v < segment_end(seg).unwrap()),
        area.start() == v,
        area.end() == segment_end(seg).unwrap(),
        extends(merged, first),
        forall|x: VirtPageNum|
            first.translate_spec(x) is None ==> (#[trigger] merged.translate_spec(x)) is None,
        forall|a: u64| merged.byte_at(a) == first.byte_at(a),
        forall|x: u64|
            seg.vaddr / 4096 <= x < v ==> (#[trigger] merged.translate_spec(VirtPageNum(x)))
                is Some,
        !pushed ==> mapped == merged,
        pushed ==> area.range_ok() && (forall|k: int|
            0 <= k < area.page_count() ==> merged.translate_spec(#[trigger] area.page(k))
                is None) && (forall|a: u64|
            #[trigger] mapped.byte_at(a) == (if v <= a / 4096 < segment_end(seg).unwrap() {
                Some(0u8)
            } else {
                merged.byte_at(a)
            })),
        seg.vaddr + seg.data.len() <= segment_end(seg).unwrap() * 4096,
        forall|a: u64| seg.vaddr <= a < seg.vaddr + seg.data.len() ==> mapped.byte_at(a) is Some,
        !on_trampoline(seg),
        !on_trap_frame(seg),
    ensures
        !misplaced(first, seg),
        !interleaved(first, seg),
{
    reveal(extends);
    let ve = segment_end(seg).unwrap();
    assert forall|u: u64| in_segment(seg, u) && first.translate_spec(VirtPageNum(u)) is None implies v
        <= u && pushed && merged.translate_spec(VirtPageNum(u)) is None by {
        let t = merged.translate_spec(VirtPageNum(u));
    }
    assert forall|w: u64| v <= w < ve implies first.translate_spec(VirtPageNum(w)) is None by {
        assert(area.page(w - v) == VirtPageNum(w));
        let t = merged.translate_spec(VirtPageNum(w));
        if first.translate_spec(VirtPageNum(w)) is Some {
            assert(merged.translate_spec(VirtPageNum(w)) is Some);
        }
    }
    if interleaved(first, seg) {
        let (u, w) = choose|u: u64, w: u64|
            in_segment(seg, u) && in_segment(seg, w) && u < w && (#[trigger] first.translate_spec(
                VirtPageNum(u),
            )) is None && (#[trigger] first.translate_spec(VirtPageNum(w))) is Some;
        assert(v <= u);
        assert(v <= w < ve);
    }
    if exists|u: u64|
        in_segment(seg, u) && (#[trigger] first.translate_spec(VirtPageNum(u))) is None && !(
        segment_end(seg).unwrap() <= LOW_VPN_END || u >= HIGH_VPN_START) {
        let u = choose|u: u64|
            in_segment(seg, u) && (#[trigger] first.translate_spec(VirtPageNum(u))) is None && !(
            segment_end(seg).unwrap() <= LOW_VPN_END || u >= HIGH_VPN_START);
        assert(v <= u && pushed);
        assert(area.range_ok());
    }
    if exists|a: u64|
        #[trigger] in_data(seg, a) && (!in_segment(seg, a / 4096) || (first.byte_at(a) is None
            && first.translate_spec(VirtPageNum(a / 4096)) is Some)) {
        let a = choose|a: u64|
            #[trigger] in_data(seg, a) && (!in_segment(seg, a / 4096) || (first.byte_at(a) is None
                && first.translate_spec(VirtPageNum(a / 4096)) is Some));
        assert(in_segment(seg, a / 4096));
        assert(mapped.byte_at(a) is Some);
        let b = merged.byte_at(a);
        if v <= a / 4096 {
            assert(v <= a / 4096 < ve);
        }
    }
}

/// What translates and what holds bytes once a segment is mapped, and why
/// its bytes could not be written.
proof fn lemma_seg_domain(
    first: MemorySet,
    merged: MemorySet,
    mapped: MemorySet,
    cur: MemorySet,
    seg: SegmentView,
    area: MapArea,
    v: u64,
    pushed: bool,
    written: bool,
)
    requires
        segment_end(seg) is Some,
        seg.vaddr / 4096 <= v <= segment_end(seg).unwrap(),
        pushed == (v < segment_end(seg).unwrap()),
        area.start() == v,
        area.end() == segment_end(seg).unwrap(),
        extends(merged, first),
        forall|x: VirtPageNum|
            first.translate_spec(x) is None ==> (#[trigger] merged.translate_spec(x)) is None,
        forall|a: u64| merged.byte_at(a) == first.byte_at(a),
        forall|x: u64|
            seg.vaddr / 4096 <= x < v ==> (#[trigger] merged.translate_spec(VirtPageNum(x)))
                is Some,
        !pushed ==> mapped == merged,
        pushed ==> (forall|x: VirtPageNum|
            (#[trigger] mapped.translate_spec(x)) is Some <==> merged.translate_spec(x) is Some
                || area.touches(0, area.page_count(), x)) && (forall|k: int|
            0 <= k < area.page_count() ==> merged.translate_spec(#[trigger] area.page(k))
                is None) && (forall|a: u64|
            #[trigger] mapped.byte_at(a) == (if v <= a / 4096 < segment_end(seg).unwrap() {
                Some(0u8)
            } else {
                merged.byte_at(a)
            })),
        cur.table() == mapped.table(),
        seg.vaddr + seg.data.len() <= segment_end(seg).unwrap() * 4096,
        written == (seg.vaddr + seg.data.len() <= 0x1_0000_0000_0000_0000 && forall|a: u64|
            seg.vaddr <= a < seg.vaddr + seg.data.len() ==> mapped.byte_at(a) is Some),
        forall|a: u64|
            #[trigger] cur.byte_at(a) == (if written && in_data(seg, a) {
                Some(seg.data[a - seg.vaddr])
            } else {
                mapped.byte_at(a)
            }),
    ensures
        forall|x: VirtPageNum|
            (#[trigger] cur.translate_spec(x)) is Some <==> first.translate_spec(x) is Some
                || seg_touches(seg, x.0),
        written ==> forall|a: u64|
            (#[trigger] cur.byte_at(a)) is Some <==> first.byte_at(a) is Some || (in_segment(
                seg,
                a / 4096,
            ) && first.translate_spec(VirtPageNum(a / 4096)) is None),
        !written ==> misplaced(first, seg),
{
    reveal(extends);
    reveal(charged);
    let ve = segment_end(seg).unwrap();
    let vs = (seg.vaddr / 4096) as u64;
    assert forall|x: VirtPageNum|
        (#[trigger] cur.translate_spec(x)) is Some <==> first.translate_spec(x) is Some
            || seg_touches(seg, x.0) by {
        let tm = merged.translate_spec(x);
        let tf = first.translate_spec(x);
        let tp = mapped.translate_spec(x);
        if seg_touches(seg, x.0) {
            let y = choose|y: u64| in_segment(seg, y) && #[trigger] same_path(x.0, y);
            if y < v {
                assert(merged.translate_spec(VirtPageNum(y)) is Some);
                merged.table().lemma_same_path(x, VirtPageNum(y));
            } else {
                assert(area.page(y - v) == VirtPageNum(y));
                assert(same_path(x.0, area.page(y - v).0));
            }
        }
        if pushed && tp is Some && tm is None {
            let k = choose|k: int|
                0 <= k < area.page_count() && same_path(x.0, #[trigger] area.page(k).0);
            assert(in_segment(seg, area.page(k).0));
        }
    }
    lemma_first_none(first, merged, seg, area, v);
    if written {
        assert forall|a: u64|
            (#[trigger] cur.byte_at(a)) is Some <==> first.byte_at(a) is Some || (in_segment(
                seg,
                a / 4096,
            ) && first.translate_spec(VirtPageNum(a / 4096)) is None) by {
            let bm = mapped.byte_at(a);
            let bg = merged.byte_at(a);
            let p = a / 4096;
            if in_segment(seg, p) && p < v {
                assert(merged.translate_spec(VirtPageNum(p)) is Some);
            }
        }
    } else {
        let a = choose|a: u64|
            seg.vaddr <= a < seg.vaddr + seg.data.len() && !(mapped.byte_at(a) is Some);
        assert(in_data(seg, a));
        let bm = mapped.byte_at(a);
        let bg = merged.byte_at(a);
        let bf = first.byte_at(a);
        let p = a / 4096;
        assert(in_segment(seg, p));
        assert(p < v);
        assert(merged.translate_spec(VirtPageNum(p)) is Some);
        let tf = first.translate_spec(VirtPageNum(p));
    }
}

/// The pages of a segment from `v` on do not translate before the segment
/// is loaded, and those before `v` do.
proof fn lemma_first_none(
    first: MemorySet,
    merged: MemorySet,
    seg: SegmentView,
    area: MapArea,
    v: u64,
)
    requires
        segment_end(seg) is Some,
        area.start() == v,
        area.end() == segment_end(seg).unwrap(),
        extends(merged, first),
        forall|x: VirtPageNum|
            first.translate_spec(x) is None ==> (#[trigger] merged.translate_spec(x)) is None,
        forall|x: u64|
            seg.vaddr / 4096 <= x < v ==> (#[trigger] merged.translate_spec(VirtPageNum(x)))
                is Some,
        v < segment_end(seg).unwrap() ==> forall|k: int|
            0 <= k < area.page_count() ==> merged.translate_spec(#[trigger] area.page(k))
                is None,
    ensures
        forall|p: u64|
            in_segment(seg, p) ==> ((#[trigger] first.translate_spec(VirtPageNum(p))) is None
                <==> p >= v),
{
    reveal(extends);
    reveal(charged);
    assert forall|p: u64| in_segment(seg, p) implies ((#[trigger] first.translate_spec(
        VirtPageNum(p),
    )) is None <==> p >= v) by {
        let tm = merged.translate_spec(VirtPageNum(p));
        if p >= v {
            assert(area.page(p - v) == VirtPageNum(p));
            assert(merged.translate_spec(area.page(p - v)) is None);
        }
    }
}

/// Whether page `x` shares its path through a page table with one of
/// the pages from `lo` up to, but without, `hi`.
pub open spec fn path_in(x: u64, lo: u64, hi: u64) -> bool {
    exists|y: u64| lo <= y < hi && #[trigger] same_path(x, y)
}

/// The flags of a page once a segment with the permissions `perm` has
/// come over it: those that it had, if it translated, and the
/// permissions and the valid flag.
pub open spec fn merged_flags(t: Option<(PhysPageNum, PTEFlags)>, perm: u8) -> u8 {
    (match t {
        Some(e) => e.1.0,
        None => 0u8,
    }) | perm | 1
}

/// The flags after `lo` to `hi` gained `perm`: the pages that share a
/// path with one of them have their flags from `first` and the
/// permissions, the others their flags from `first`.
pub open spec fn flags_merged(first: MemorySet, cur: MemorySet, lo: u64, hi: u64, perm: u8) -> bool {
    forall|x: VirtPageNum|
        (#[trigger] cur.translate_spec(x)) is Some ==> cur.translate_spec(x).unwrap().1.0 == (
        if path_in(x.0, lo, hi) {
            merged_flags(first.translate_spec(x), perm)
        } else {
            first.translate_spec(x).unwrap().1.0
        })
}

/// To gain permissions twice is to gain them once.
proof fn lemma_merge_bits(f: u8, p: u8)
    by (bit_vector)
    ensures
        ((f | p | 1) | p | 1) == (f | p | 1),
        (0u8 | p | 1) == (p | 1),
{
}

/// One step of `merge_leading`, for the flags.
proof fn lemma_merge_flags(
    first: MemorySet,
    prev: MemorySet,
    cur: MemorySet,
    vpn: VirtPageNum,
    perm: u8,
    start: u64,
)
    requires
        start <= vpn.0 < u64::MAX,
        flags_merged(first, prev, start, vpn.0, perm),
        forall|x: VirtPageNum|
            first.translate_spec(x) is None ==> prev.translate_spec(x) is None,
        forall|x: VirtPageNum|
            !same_path(x.0, vpn.0) ==> cur.translate_spec(x) == prev.translate_spec(x),
        prev.translate_spec(vpn) is Some,
        cur.translate_spec(vpn) == Some(
            (
                prev.translate_spec(vpn).unwrap().0,
                PTEFlags(prev.translate_spec(vpn).unwrap().1.0 | perm | 1),
            ),
        ),
    ensures
        flags_merged(first, cur, start, (vpn.0 + 1) as u64, perm),
{
    assert forall|x: VirtPageNum| (#[trigger] cur.translate_spec(x)) is Some implies cur.translate_spec(
        x,
    ).unwrap().1.0 == (if path_in(x.0, start, (vpn.0 + 1) as u64) {
        merged_flags(first.translate_spec(x), perm)
    } else {
        first.translate_spec(x).unwrap().1.0
    }) by {
        let tp = prev.translate_spec(x);
        if same_path(x.0, vpn.0) {
            prev.table().lemma_same_path(x, vpn);
            cur.table().lemma_same_path(x, vpn);
            assert(path_in(x.0, start, (vpn.0 + 1) as u64));
            assert(tp is Some);
            let f0 = first.translate_spec(x).unwrap().1.0;
            lemma_merge_bits(f0, perm);
        } else {
            assert(tp is Some);
            if path_in(x.0, start, (vpn.0 + 1) as u64) {
                let y = choose|y: u64| start <= y < vpn.0 + 1 && #[trigger] same_path(x.0, y);
                assert(y != vpn.0);
                assert(start <= y < vpn.0 && same_path(x.0, y));
                assert(path_in(x.0, start, vpn.0));
            }
            if path_in(x.0, start, vpn.0) {
                let y = choose|y: u64| start <= y < vpn.0 && #[trigger] same_path(x.0, y);
                assert(start <= y < vpn.0 + 1 && same_path(x.0, y));
            }
        }
    }
}

/// The flags once a segment is loaded: every page that shares its path
/// with a page of the segment has the flags that it had, if it
/// translated, and the permissions of the segment; every other page has
/// the flags that it had.
pub open spec fn seg_flags(first: MemorySet, cur: MemorySet, seg: SegmentView) -> bool {
    forall|x: VirtPageNum|
        (#[trigger] cur.translate_spec(x)) is Some ==> cur.translate_spec(x).unwrap().1.0 == (
        if seg_touches(seg, x.0) {
            merged_flags(first.translate_spec(x), segment_perm(seg.flags))
        } else {
            first.translate_spec(x).unwrap().1.0
        })
}

/// A page that shares no path with the pages from `v` on touches the
/// segment only through the pages before `v`.
proof fn lemma_seg_split(seg: SegmentView, area: MapArea, v: u64, x: u64)
    requires
        segment_end(seg) is Some,
        seg.vaddr / 4096 <= v <= segment_end(seg).unwrap(),
        area.start() == v,
        area.end() == segment_end(seg).unwrap(),
        !area.touches(0, area.page_count(), VirtPageNum(x)),
    ensures
        seg_touches(seg, x) == path_in(x, (seg.vaddr / 4096) as u64, v),
{
    let vs = (seg.vaddr / 4096) as u64;
    if seg_touches(seg, x) {
        let y = choose|y: u64| in_segment(seg, y) && #[trigger] same_path(x, y);
        if y >= v {
            assert(area.page(y - v) == VirtPageNum(y));
            assert(same_path(x, area.page(y - v).0));
        }
        assert(vs <= y < v && same_path(x, y));
    }
    if path_in(x, vs, v) {
        let y = choose|y: u64| vs <= y < v && #[trigger] same_path(x, y);
        assert(in_segment(seg, y) && same_path(x, y));
    }
}

/// A page that shares its path with a page of the new region touches
/// the segment.
proof fn lemma_seg_new(seg: SegmentView, area: MapArea, v: u64, x: u64, k: int)
    requires
        segment_end(seg) is Some,
        seg.vaddr / 4096 <= v <= segment_end(seg).unwrap(),
        area.start() == v,
        area.end() == segment_end(seg).unwrap(),
        0 <= k < area.page_count(),
        same_path(x, area.page(k).0),
    ensures
        seg_touches(seg, x),
{
    assert(in_segment(seg, area.page(k).0));
}

/// The flags once the leading pages of a segment gained its permissions
/// and the others were mapped.
proof fn lemma_seg_flags(
    first: MemorySet,
    merged: MemorySet,
    mapped: MemorySet,
    cur: MemorySet,
    seg: SegmentView,
    area: MapArea,
    v: u64,
    pushed: bool,
)
    requires
        segment_end(seg) is Some,
        seg.vaddr / 4096 <= v <= segment_end(seg).unwrap(),
        pushed == (v < segment_end(seg).unwrap()),
        area.start() == v,
        area.end() == segment_end(seg).unwrap(),
        area.perm().0 == segment_perm(seg.flags),
        flags_merged(first, merged, (seg.vaddr / 4096) as u64, v, segment_perm(seg.flags)),
        extends(merged, first),
        !pushed ==> mapped == merged,
        pushed ==> (forall|x: VirtPageNum|
            !area.touches(0, area.page_count(), x) ==> mapped.translate_spec(x)
                == merged.translate_spec(x)) && (forall|k: int|
            0 <= k < area.page_count() ==> merged.translate_spec(#[trigger] area.page(k))
                is None) && (forall|k: int|
            0 <= k < area.page_count() ==> (#[trigger] mapped.translate_spec(area.page(k)))
                is Some && mapped.translate_spec(area.page(k)).unwrap().1 == PTEFlags(
                area.perm().0 | 1,
            )),
        cur.table() == mapped.table(),
    ensures
        seg_flags(first, cur, seg),
{
    let vs = (seg.vaddr / 4096) as u64;
    let perm = segment_perm(seg.flags);
    lemma_merge_bits(0, perm);
    reveal(extends);
    assert forall|x: VirtPageNum| (#[trigger] cur.translate_spec(x)) is Some implies cur.translate_spec(
        x,
    ).unwrap().1.0 == (if seg_touches(seg, x.0) {
        merged_flags(first.translate_spec(x), perm)
    } else {
        first.translate_spec(x).unwrap().1.0
    }) by {
        if pushed && area.touches(0, area.page_count(), x) {
            let k = choose|k: int|
                0 <= k < area.page_count() && same_path(x.0, #[trigger] area.page(k).0);
            mapped.table().lemma_same_path(x, area.page(k));
            merged.table().lemma_same_path(x, area.page(k));
            let t = mapped.translate_spec(area.page(k));
            let u = merged.translate_spec(area.page(k));
            let w = merged.translate_spec(x);
            assert(w is None);
            if first.translate_spec(x) is Some {
                let z = merged.translate_spec(x);
                assert(z is Some);
            }
            assert(first.translate_spec(x) is None);
            lemma_seg_new(seg, area, v, x.0, k);
        } else {
            let tm = merged.translate_spec(x);
            lemma_seg_split(seg, area, v, x.0);
        }
    }
}

/// One step of `merge_leading`.
proof fn lemma_merge_step(
    first: MemorySet,
    prev: MemorySet,
    cur: MemorySet,
    vpn: VirtPageNum,
    perm: MapPermission,
    start: u64,
)
    requires
        extends(prev, first),
        cur.trampoline_frame() == prev.trampoline_frame(),
        cur.table().ppns() == prev.table().ppns(),
        cur.regions() == prev.regions(),
        forall|q: u64| cur.owns(q) == prev.owns(q),
        forall|x: VirtPageNum|
            first.translate_spec(x) is None ==> prev.translate_spec(x) is None,
        forall|x: u64|
            start <= x < vpn.0 ==> {
                let t = #[trigger] prev.translate_spec(VirtPageNum(x));
                t is Some && t.unwrap().1.has(PTEFlags(perm.0 | 1))
            },
        start <= vpn.0,
        forall|x: VirtPageNum|
            !same_path(x.0, vpn.0) ==> cur.translate_spec(x) == prev.translate_spec(x),
        prev.translate_spec(vpn) is Some,
        cur.translate_spec(vpn) == Some(
            (
                prev.translate_spec(vpn).unwrap().0,
                PTEFlags(prev.translate_spec(vpn).unwrap().1.0 | perm.0 | 1),
            ),
        ),
    ensures
        extends(cur, first),
        forall|x: VirtPageNum| first.translate_spec(x) is None ==> cur.translate_spec(x) is None,
        forall|x: u64|
            start <= x < vpn.0 + 1 ==> {
                let t = #[trigger] cur.translate_spec(VirtPageNum(x));
                t is Some && t.unwrap().1.has(PTEFlags(perm.0 | 1))
            },
{
    reveal(extends);
    reveal(charged);
    let f0 = prev.translate_spec(vpn).unwrap().1.0;
    lemma_flag_bits(f0, perm.0, 0);
    lemma_flag_bits(f0 | perm.0, 1, 0);
    lemma_flag_bits((f0 | perm.0) | 1, f0 | perm.0, f0);
    lemma_flag_bits((f0 | perm.0) | 1, f0 | perm.0, perm.0);
    lemma_flag_bits((f0 | perm.0) | 1, perm.0 | 1, 0);
    assert forall|x: VirtPageNum| prev.translate_spec(x) is Some implies {
        let t = #[trigger] cur.translate_spec(x);
        &&& t is Some
        &&& t.unwrap().0 == prev.translate_spec(x).unwrap().0
        &&& t.unwrap().1.has(prev.translate_spec(x).unwrap().1)
    } by {
        if same_path(x.0, vpn.0) {
            prev.table().lemma_same_path(x, vpn);
            cur.table().lemma_same_path(x, vpn);
        } else {
            lemma_flag_bits(prev.translate_spec(x).unwrap().1.0, 0, 0);
        }
    }
    assert forall|x: VirtPageNum| first.translate_spec(x) is Some implies {
        let t = #[trigger] cur.translate_spec(x);
        &&& t is Some
        &&& t.unwrap().0 == first.translate_spec(x).unwrap().0
        &&& t.unwrap().1.has(first.translate_spec(x).unwrap().1)
    } by {
        let tp = prev.translate_spec(x);
        lemma_flag_bits(
            cur.translate_spec(x).unwrap().1.0,
            tp.unwrap().1.0,
            first.translate_spec(x).unwrap().1.0,
        );
    }
    assert forall|x: VirtPageNum| first.translate_spec(x) is None implies cur.translate_spec(x)
        is None by {
        assert(prev.translate_spec(x) is None);
        if same_path(x.0, vpn.0) {
            prev.table().lemma_same_path(x, vpn);
        }
    }
    assert forall|x: u64| start <= x < vpn.0 + 1 implies {
        let t = #[trigger] cur.translate_spec(VirtPageNum(x));
        t is Some && t.unwrap().1.has(PTEFlags(perm.0 | 1))
    } by {
        if x < vpn.0 {
            let tp = prev.translate_spec(VirtPageNum(x));
            lemma_flag_bits(cur.translate_spec(VirtPageNum(x)).unwrap().1.0, tp.unwrap().1.0, perm.0 | 1);
        }
    }
    assert(cur.table().root() == first.table().root());
    assert forall|i: int| 0 <= i < first.regions().len() implies (#[trigger] cur.regions()[i]).same_shape(
        first.regions()[i],
    ) by {
        assert(prev.regions()[i].same_shape(first.regions()[i]));
    }
}

} // verus!
