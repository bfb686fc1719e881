//! Physical frame allocator.
//!
//! One bit per frame over the window `[start_ppn, end_ppn)`; a set bit marks
//! a frame that is in use. Allocation scans from a rotating cursor.

use vstd::prelude::*;
use crate::mm::memory_layout::{align_down, align_up, lemma_page_bits, PhysPageNum, PPN_LIMIT};

verus! {

/// Largest number of frames that the bitmap can track (128 MiB of 4 KiB frames).
pub const MAX_FRAMES: u64 = 32768;

/// Number of 64-bit words in the bitmap.
pub const BITMAP_WORDS: usize = 512;

/// Whether bit `i` of `w` is set.
pub open spec fn bit_is_set(w: u64, i: u64) -> bool {
    (w >> i) & 1 == 1
}

/// What testing, setting and clearing bit `i` of a word does to bit `j`.
proof fn lemma_bit_ops(w: u64, i: u64, j: u64)
    by (bit_vector)
    requires
        i < 64,
        j < 64,
    ensures
        ((w & (1u64 << i)) == 0) == !((w >> i) & 1 == 1),
        (((w | (1u64 << i)) >> j) & 1 == 1) == (i == j || (w >> j) & 1 == 1),
        (((w & !(1u64 << i)) >> j) & 1 == 1) == (i != j && (w >> j) & 1 == 1),
        !((0u64 >> j) & 1 == 1),
{
}

/// Bitmap frame allocator.
pub struct BitmapFrameAllocator {
    /// First frame of the window.
    start_ppn: u64,
    /// One past the last frame of the window.
    end_ppn: u64,
    /// One bit per frame: 1 = in use, 0 = free.
    bitmap: Vec<u64>,
    /// Index (relative to `start_ppn`) at which the next scan begins.
    next: u64,
}

impl BitmapFrameAllocator {
    /// First frame of the managed window.
    pub closed spec fn start(&self) -> u64 {
        self.start_ppn
    }

    /// One past the last frame of the managed window.
    pub closed spec fn end(&self) -> u64 {
        self.end_ppn
    }

    /// The index, relative to the window, at which the next scan begins.
    pub closed spec fn cursor(&self) -> u64 {
        self.next
    }

    /// Whether `ppn` is a frame of the window that is in use.
    pub closed spec fn is_allocated(&self, ppn: u64) -> bool {
        &&& self.start_ppn <= ppn < self.end_ppn
        &&& bit_is_set(
            self.bitmap@[(ppn - self.start_ppn) / 64],
            ((ppn - self.start_ppn) % 64) as u64,
        )
    }

    /// Whether `ppn` is a frame of the window that is free.
    pub open spec fn is_free(&self, ppn: u64) -> bool {
        self.start() <= ppn < self.end() && !self.is_allocated(ppn)
    }

    /// The frames in use.
    pub open spec fn allocated(&self) -> Set<u64> {
        Set::new(|p: u64| self.is_allocated(p))
    }

    /// Number of frames in use.
    pub open spec fn frames_in_use(&self) -> nat {
        self.allocated().len()
    }

    /// Number of frames in the window.
    pub open spec fn total(&self) -> int {
        self.end() - self.start()
    }

    /// Number of free frames.
    pub open spec fn free_count(&self) -> int {
        self.total() - self.frames_in_use()
    }

    /// The allocator's invariant.
    pub closed spec fn wf(&self) -> bool {
        &&& self.start_ppn <= self.end_ppn <= PPN_LIMIT
        &&& self.end_ppn - self.start_ppn <= MAX_FRAMES
        &&& self.bitmap@.len() == BITMAP_WORDS
        &&& self.next <= self.end_ppn - self.start_ppn
    }

    /// The addresses that `init` accepts as a window: at least zero whole
    /// frames, no more than the bitmap can track, inside the 56-bit
    /// physical address space.
    pub open spec fn window_ok(start: u64, end: u64) -> bool {
        &&& start <= end <= 0x100_0000_0000_0000
        &&& (start + 4095) / 4096 <= end / 4096
        &&& end / 4096 - (start + 4095) / 4096 <= MAX_FRAMES
    }

    /// `after` is `before` with the free frame `p` taken.
    pub open spec fn took(before: Self, after: Self, p: u64) -> bool {
        &&& before.is_free(p)
        &&& after.start() == before.start()
        &&& after.end() == before.end()
        &&& forall|q: u64| after.is_allocated(q) == (q == p || before.is_allocated(q))
    }

    /// `after` is `before` with frame `p` given back.
    pub open spec fn gave(before: Self, after: Self, p: u64) -> bool {
        &&& after.start() == before.start()
        &&& after.end() == before.end()
        &&& forall|q: u64| after.is_allocated(q) == (q != p && before.is_allocated(q))
    }

    /// Taking a frame and giving it back leaves the frames in use, and
    /// with them the number of free frames, as they were.
    pub proof fn lemma_alloc_dealloc(a0: Self, a1: Self, a2: Self, p: u64)
        requires
            a0.wf(),
            a1.wf(),
            a2.wf(),
            Self::took(a0, a1, p),
            Self::gave(a1, a2, p),
        ensures
            a2.allocated() == a0.allocated(),
            a2.frames_in_use() == a0.frames_in_use(),
            a2.free_count() == a0.free_count(),
    {
        assert(a2.allocated() =~= a0.allocated());
    }

    /// The frames in use among the first `k` of the window.
    spec fn allocated_below(&self, k: int) -> Set<u64> {
        Set::new(|p: u64| self.is_allocated(p) && p < self.start_ppn + k)
    }

    /// The frames in use among the first `k` are at most `k`, and grow by
    /// the next frame if it is in use.
    proof fn lemma_allocated_below(&self, k: int)
        requires
            self.wf(),
            0 <= k <= self.total(),
        ensures
            self.allocated_below(k).finite(),
            self.allocated_below(k).len() <= k,
            k < self.total() ==> self.allocated_below(k + 1) == (if self.is_allocated(
                (self.start_ppn + k) as u64,
            ) {
                self.allocated_below(k).insert((self.start_ppn + k) as u64)
            } else {
                self.allocated_below(k)
            }),
            k < self.total() && self.is_allocated((self.start_ppn + k) as u64)
                ==> self.allocated_below(k + 1).len() == self.allocated_below(k).len() + 1,
        decreases k,
    {
        if k == 0 {
            assert(self.allocated_below(0) =~= Set::<u64>::empty());
        } else {
            self.lemma_allocated_below(k - 1);
        }
        if k < self.total() {
            let p = (self.start_ppn + k) as u64;
            if self.is_allocated(p) {
                assert(self.allocated_below(k + 1) =~= self.allocated_below(k).insert(p));
                assert(!self.allocated_below(k).contains(p));
            } else {
                assert(self.allocated_below(k + 1) =~= self.allocated_below(k));
            }
        }
    }

    /// The frames in use are finitely many, and no more than the window holds.
    pub proof fn lemma_allocated_finite(&self)
        requires
            self.wf(),
        ensures
            self.allocated().finite(),
            self.frames_in_use() <= self.total(),
            self.free_count() >= 0,
    {
        self.lemma_allocated_below(self.total());
        assert(self.allocated_below(self.total()) =~= self.allocated());
    }

    /// An allocator over an empty window.
    pub fn new() -> (r: Self)
        ensures
            r.wf(),
            r.start() == 0,
            r.end() == 0,
            r.cursor() == 0,
            forall|p: u64| !r.is_allocated(p),
    {
        let mut bitmap: Vec<u64> = Vec::new();
        let mut i: usize = 0;
        while i < BITMAP_WORDS
            invariant
                i <= BITMAP_WORDS,
                bitmap@.len() == i,
            decreases BITMAP_WORDS - i,
        {
            bitmap.push(0);
            i += 1;
        }
        BitmapFrameAllocator { start_ppn: 0, end_ppn: 0, bitmap, next: 0 }
    }

    /// Takes over the frames that lie wholly inside `[start, end)`, all free.
    pub fn init(&mut self, start: u64, end: u64)
        requires
            old(self).wf(),
            Self::window_ok(start, end),
        ensures
            final(self).wf(),
            final(self).start() == (start + 4095) / 4096,
            final(self).end() == end / 4096,
            final(self).cursor() == 0,
            forall|p: u64| !final(self).is_allocated(p),
    {
        let up = align_up(start);
        let down = align_down(end);
        proof {
            lemma_page_bits(up);
            lemma_page_bits(down);
        }
        self.start_ppn = up >> 12;
        self.end_ppn = down >> 12;
        self.next = 0;
        let mut i: usize = 0;
        while i < BITMAP_WORDS
            invariant
                i <= BITMAP_WORDS,
                self.bitmap@.len() == BITMAP_WORDS,
                forall|k: int| 0 <= k < i ==> self.bitmap@[k] == 0,
                self.start_ppn == (start + 4095) / 4096,
                self.end_ppn == end / 4096,
                self.next == 0,
            decreases BITMAP_WORDS - i,
        {
            self.bitmap.set(i, 0);
            i += 1;
        }
        proof {
            assert forall|p: u64| !self.is_allocated(p) by {
                if self.start_ppn <= p < self.end_ppn {
                    lemma_bit_ops(0, 0, ((p - self.start_ppn) % 64) as u64);
                }
            }
        }
    }

    /// The first free frame with index in `[lo, hi)`, if there is one.
    fn find_free(&self, lo: u64, hi: u64) -> (r: Option<u64>)
        requires
            self.wf(),
            lo <= hi <= self.total(),
        ensures
            match r {
                Some(i) => lo <= i < hi && self.is_free((self.start() + i) as u64) && forall|
                    q: u64,
                |
                    self.start() + lo <= q < self.start() + i ==> self.is_allocated(q),
                None => forall|q: u64|
                    self.start() + lo <= q < self.start() + hi ==> self.is_allocated(q),
            },
    {
        let mut idx = lo;
        while idx < hi
            invariant
                self.wf(),
                lo <= idx <= hi <= self.total(),
                forall|q: u64|
                    self.start() + lo <= q < self.start() + idx ==> self.is_allocated(q),
            decreases hi - idx,
        {
            let word = self.bitmap[(idx / 64) as usize];
            let bit = idx % 64;
            let mask = 1u64 << bit;
            proof {
                lemma_bit_ops(word, bit, bit);
            }
            if word & mask == 0 {
                return Some(idx);
            }
            idx += 1;
        }
        None
    }

    /// Marks frame `idx` of the window as in use and moves the cursor behind it.
    fn take(&mut self, idx: u64) -> (r: PhysPageNum)
        requires
            old(self).wf(),
            idx < old(self).total(),
            old(self).is_free((old(self).start() + idx) as u64),
        ensures
            final(self).wf(),
            final(self).start() == old(self).start(),
            final(self).end() == old(self).end(),
            r.0 == old(self).start() + idx,
            final(self).cursor() == (if idx + 1 == old(self).total() {
                0
            } else {
                idx + 1
            }),
            forall|q: u64| final(self).is_allocated(q) == (q == r.0 || old(self).is_allocated(q)),
    {
        let w = (idx / 64) as usize;
        let bit = idx % 64;
        let word = self.bitmap[w];
        self.bitmap.set(w, word | (1u64 << bit));
        self.next = if idx + 1 == self.end_ppn - self.start_ppn {
            0
        } else {
            idx + 1
        };
        let ppn = self.start_ppn + idx;
        proof {
            assert forall|q: u64|
                self.is_allocated(q) == (q == ppn || old(self).is_allocated(q)) by {
                if self.start_ppn <= q < self.end_ppn {
                    let qi = (q - self.start_ppn) as u64;
                    if qi / 64 == idx / 64 {
                        lemma_bit_ops(word, bit, (qi % 64) as u64);
                    }
                }
            }
        }
        PhysPageNum(ppn)
    }

    /// Allocates a frame: the first free one at or after the cursor, else the
    /// first free one before it. `None` when every frame is in use.
    pub fn alloc_frame(&mut self) -> (r: Option<PhysPageNum>)
        requires
            old(self).wf(),
        ensures
            final(self).wf(),
            final(self).start() == old(self).start(),
            final(self).end() == old(self).end(),
            match r {
                Some(p) => {
                    &&& Self::took(*old(self), *final(self), p.0)
                    &&& old(self).is_free(p.0)
                    &&& p.wf()
                    &&& forall|q: u64|
                        final(self).is_allocated(q) == (q == p.0 || old(self).is_allocated(q))
                    &&& final(self).allocated() == old(self).allocated().insert(p.0)
                    &&& final(self).frames_in_use() == old(self).frames_in_use() + 1
                    &&& old(self).free_count() > 0
                    &&& forall|q: u64|
                        old(self).start() + old(self).cursor() <= q < p.0 ==> old(self).is_allocated(q)
                    &&& p.0 < old(self).start() + old(self).cursor() ==> forall|q: u64|
                        (old(self).start() <= q < p.0 || old(self).start() + old(self).cursor()
                            <= q < old(self).end()) ==> old(self).is_allocated(q)
                    &&& final(self).cursor() == (if p.0 + 1 == old(self).end() {
                        0
                    } else {
                        p.0 + 1 - old(self).start()
                    })
                },
                None => {
                    &&& *final(self) == *old(self)
                    &&& forall|q: u64| old(self).start() <= q < old(self).end() ==> old(self).is_allocated(q)
                    &&& old(self).free_count() == 0
                },
            },
    {
        let total = self.end_ppn - self.start_ppn;
        let cursor = self.next;
        let found = match self.find_free(cursor, total) {
            Some(i) => Some(i),
            None => self.find_free(0, cursor),
        };
        match found {
            Some(idx) => {
                let p = self.take(idx);
                proof {
                    old(self).lemma_allocated_finite();
                    self.lemma_allocated_finite();
                    assert(self.allocated() =~= old(self).allocated().insert(p.0));
                }
                Some(p)
            },
            None => {
                proof {
                    assert forall|q: u64| self.start_ppn <= q < self.end_ppn implies self.is_allocated(
                        q,
                    ) by {
                    }
                    self.lemma_full();
                }
                None
            },
        }
    }

    /// When every frame is in use, `k` frames are in use among the first `k`.
    proof fn lemma_full_below(&self, k: int)
        requires
            self.wf(),
            0 <= k <= self.total(),
            forall|q: u64| self.start_ppn <= q < self.end_ppn ==> self.is_allocated(q),
        ensures
            self.allocated_below(k).len() == k,
        decreases k,
    {
        self.lemma_allocated_below(k);
        if k > 0 {
            self.lemma_full_below(k - 1);
            self.lemma_allocated_below(k - 1);
        }
    }

    /// When every frame is in use, no frame is free.
    proof fn lemma_full(&self)
        requires
            self.wf(),
            forall|q: u64| self.start_ppn <= q < self.end_ppn ==> self.is_allocated(q),
        ensures
            self.free_count() == 0,
    {
        self.lemma_full_below(self.total());
        assert(self.allocated_below(self.total()) =~= self.allocated());
    }

    /// Returns a frame to the allocator. A number outside the window, or a
    /// frame that is already free, changes nothing.
    pub fn dealloc(&mut self, ppn: PhysPageNum)
        requires
            old(self).wf(),
        ensures
            final(self).wf(),
            final(self).start() == old(self).start(),
            final(self).end() == old(self).end(),
            final(self).cursor() == old(self).cursor(),
            Self::gave(*old(self), *final(self), ppn.0),
            forall|q: u64| final(self).is_allocated(q) == (q != ppn.0 && old(self).is_allocated(q)),
            final(self).allocated() == old(self).allocated().remove(ppn.0),
            old(self).is_allocated(ppn.0) ==> final(self).frames_in_use() + 1 == old(self).frames_in_use(),
            !old(self).is_allocated(ppn.0) ==> final(self).frames_in_use() == old(self).frames_in_use(),
    {
        let ppn_val = ppn.0;
        if ppn_val < self.start_ppn || ppn_val >= self.end_ppn {
            proof {
                assert(self.allocated() =~= old(self).allocated().remove(ppn.0));
                self.lemma_allocated_finite();
            }
            return ;
        }
        let idx = ppn_val - self.start_ppn;
        let w = (idx / 64) as usize;
        let bit = idx % 64;
        let word = self.bitmap[w];
        self.bitmap.set(w, word & !(1u64 << bit));
        proof {
            assert forall|q: u64|
                self.is_allocated(q) == (q != ppn.0 && old(self).is_allocated(q)) by {
                if self.start_ppn <= q < self.end_ppn {
                    let qi = (q - self.start_ppn) as u64;
                    if qi / 64 == idx / 64 {
                        lemma_bit_ops(word, bit, (qi % 64) as u64);
                    }
                }
            }
            assert(self.allocated() =~= old(self).allocated().remove(ppn.0));
            old(self).lemma_allocated_finite();
        }
    }

    /// Number of free frames.
    pub fn free_frames(&self) -> (r: u64)
        requires
            self.wf(),
        ensures
            r == self.free_count(),
            r == self.total() - self.frames_in_use(),
    {
        let total = self.end_ppn - self.start_ppn;
        let mut free: u64 = 0;
        let mut idx: u64 = 0;
        proof {
            self.lemma_allocated_below(0);
        }
        while idx < total
            invariant
                self.wf(),
                total == self.total(),
                idx <= total,
                free == idx - self.allocated_below(idx as int).len(),
            decreases total - idx,
        {
            let word = self.bitmap[(idx / 64) as usize];
            let bit = idx % 64;
            proof {
                lemma_bit_ops(word, bit, bit);
                self.lemma_allocated_below(idx as int);
            }
            if word & (1u64 << bit) == 0 {
                free += 1;
            }
            idx += 1;
        }
        proof {
            assert(self.allocated_below(self.total()) =~= self.allocated());
        }
        free
    }

    /// Number of frames in the window.
    pub fn total_frames(&self) -> (r: u64)
        requires
            self.wf(),
        ensures
            r == self.total(),
    {
        self.end_ppn - self.start_ppn
    }

    /// Whether `ppn` is a frame of the window that is in use.
    pub fn is_used(&self, ppn: PhysPageNum) -> (r: bool)
        requires
            self.wf(),
        ensures
            r == self.is_allocated(ppn.0),
    {
        if ppn.0 < self.start_ppn || ppn.0 >= self.end_ppn {
            return false;
        }
        let idx = ppn.0 - self.start_ppn;
        let word = self.bitmap[(idx / 64) as usize];
        let bit = idx % 64;
        proof {
            lemma_bit_ops(word, bit, bit);
        }
        word & (1u64 << bit) != 0
    }
}

/// What hands out and takes back the physical frames that it manages.
pub trait FrameAllocator {
    /// The invariant of the allocator.
    spec fn inv(&self) -> bool;

    /// Whether frame `ppn` is one of the frames that the allocator
    /// manages.
    spec fn managed(&self, ppn: u64) -> bool;

    /// Whether frame `ppn` is in use.
    spec fn in_use(&self, ppn: u64) -> bool;

    /// Takes one of the managed frames that is not in use and marks it as
    /// in use. Returns nothing, and changes nothing, only when every
    /// managed frame is in use.
    fn alloc_frame(&mut self) -> (r: Option<PhysPageNum>)
        requires
            old(self).inv(),
        ensures
            final(self).inv(),
            forall|q: u64| final(self).managed(q) == old(self).managed(q),
            match r {
                Some(p) => {
                    &&& old(self).managed(p.0)
                    &&& !old(self).in_use(p.0)
                    &&& forall|q: u64| final(self).in_use(q) == (q == p.0 || old(self).in_use(q))
                },
                None => {
                    &&& forall|q: u64| old(self).managed(q) ==> old(self).in_use(q)
                    &&& forall|q: u64| final(self).in_use(q) == old(self).in_use(q)
                },
            },
    ;

    /// Gives frame `ppn` back: it is in use no longer, and the other
    /// frames are as they were.
    fn dealloc(&mut self, ppn: PhysPageNum)
        requires
            old(self).inv(),
        ensures
            final(self).inv(),
            forall|q: u64| final(self).managed(q) == old(self).managed(q),
            forall|q: u64| final(self).in_use(q) == (q != ppn.0 && old(self).in_use(q)),
    ;
}

impl FrameAllocator for BitmapFrameAllocator {
    /// The invariant of the bitmap.
    open spec fn inv(&self) -> bool {
        self.wf()
    }

    /// Whether the frame lies in the window of the bitmap.
    open spec fn managed(&self, ppn: u64) -> bool {
        self.start() <= ppn < self.end()
    }

    /// Whether the bitmap marks the frame as in use.
    open spec fn in_use(&self, ppn: u64) -> bool {
        self.is_allocated(ppn)
    }

    /// Takes the next free frame of the bitmap: the first free frame from
    /// the cursor on, or, if there is none up to the end of the window,
    /// the first free frame of the window. The cursor then stands behind
    /// the frame taken. Returns nothing, and changes nothing, exactly when
    /// no frame is free.
    fn alloc_frame(&mut self) -> (r: Option<PhysPageNum>)
        ensures
            final(self).start() == old(self).start(),
            final(self).end() == old(self).end(),
            r is None <==> old(self).free_count() == 0,
            match r {
                Some(p) => {
                    &&& Self::took(*old(self), *final(self), p.0)
                    &&& p.wf()
                    &&& final(self).frames_in_use() == old(self).frames_in_use() + 1
                    &&& forall|q: u64|
                        old(self).start() + old(self).cursor() <= q < p.0 ==> old(self).is_allocated(q)
                    &&& p.0 < old(self).start() + old(self).cursor() ==> forall|q: u64|
                        (old(self).start() <= q < p.0 || old(self).start() + old(self).cursor()
                            <= q < old(self).end()) ==> old(self).is_allocated(q)
                    &&& final(self).cursor() == (if p.0 + 1 == old(self).end() {
                        0
                    } else {
                        p.0 + 1 - old(self).start()
                    })
                },
                None => *final(self) == *old(self),
            },
    {
        BitmapFrameAllocator::alloc_frame(self)
    }

    /// Gives the frame back to the bitmap. A frame outside the window
    /// changes nothing; the cursor stays where it is.
    fn dealloc(&mut self, ppn: PhysPageNum)
        ensures
            final(self).cursor() == old(self).cursor(),
            Self::gave(*old(self), *final(self), ppn.0),
    {
        BitmapFrameAllocator::dealloc(self, ppn)
    }
}

} // verus!
