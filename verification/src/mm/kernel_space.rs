//! The address space of the kernel.

use vstd::prelude::*;
use crate::config::{
    KERNEL_STACK_SIZE, MAX_APP_NUM, MEMORY_END, MEMORY_START, MMIO_END, MMIO_START, PAGE_SIZE,
    TRAP_CONTEXT,
};
use crate::mm::elf_space::{fresh, lemma_budget_step, lemma_fresh_step};
use crate::mm::frame_allocator::BitmapFrameAllocator;
use crate::mm::memory_layout::{
    align_down, canonical_vpn, lemma_canonical_paths, same_path, PhysPageNum, VirtPageNum, PPN_LIMIT,
};
use crate::mm::memory_set::{
    apart, frames_for, lemma_frames_for, MapArea, MapPermission, MapType, MemorySet,
    HIGH_VPN_START, LOW_VPN_END, TRAMPOLINE_VPN, VPN_END,
};
use crate::mm::page_table::MapError;

verus! {

/// Number of regions that are mapped to the frames of the same number:
/// the memory below the kernel image, its four sections, the device
/// window and the rest of the memory.
pub const IDENTICAL_REGIONS: usize = 7;

/// Number of regions of the kernel address space.
pub const KERNEL_REGIONS: usize = 23;

/// Where the sections of the kernel image begin and end, and where the
/// code of the trampoline lies.
#[derive(Copy, Clone, Debug)]
pub struct KernelLayout {
    pub stext: u64,
    pub etext: u64,
    pub srodata: u64,
    pub erodata: u64,
    pub sdata: u64,
    pub edata: u64,
    pub sbss: u64,
    pub ebss: u64,
    pub ekernel: u64,
    pub strampoline: u64,
}

/// The top of the kernel stack of task `app_id`: one guard page below the
/// page of the trap frame for the first task, and one stack and one guard
/// page further down for each task after it.
pub open spec fn kernel_stack_top(app_id: int) -> int {
    TRAP_CONTEXT - PAGE_SIZE - app_id * (KERNEL_STACK_SIZE + PAGE_SIZE)
}

/// The bottom of the kernel stack of task `app_id`.
pub open spec fn kernel_stack_bottom(app_id: int) -> int {
    kernel_stack_top(app_id) - KERNEL_STACK_SIZE
}

/// The largest task number whose kernel stack lies above address zero.
pub const MAX_STACK_INDEX: u64 = 0x3333333333331;

/// Bottom and top of the kernel stack of task `app_id`. Beyond the last
/// task whose stack fits, the addresses wrap around.
pub fn kernel_stack_position(app_id: u64) -> (r: (u64, u64))
    ensures
        app_id <= MAX_STACK_INDEX ==> r.0 == kernel_stack_bottom(app_id as int) && r.1
            == kernel_stack_top(app_id as int),
{
    if app_id <= MAX_STACK_INDEX {
        let top = TRAP_CONTEXT - PAGE_SIZE - app_id * 0x5000;
        (top - KERNEL_STACK_SIZE, top)
    } else {
        let top = TRAP_CONTEXT.wrapping_sub(PAGE_SIZE).wrapping_sub(
            app_id.wrapping_mul(KERNEL_STACK_SIZE + PAGE_SIZE),
        );
        (top.wrapping_sub(KERNEL_STACK_SIZE), top)
    }
}

/// A region of the kernel address space as it is asked for: from which
/// address to which, how mapped and with which permissions.
pub struct RegionPlan {
    pub start_va: u64,
    pub end_va: u64,
    pub kind: MapType,
    pub perm: u8,
}

/// The `i`-th region of the kernel address space.
pub open spec fn kernel_region(l: KernelLayout, i: int) -> RegionPlan {
    if i == 0 {
        RegionPlan { start_va: MEMORY_START, end_va: l.stext, kind: MapType::Identical, perm: 0x06 }
    } else if i == 1 {
        RegionPlan { start_va: l.stext, end_va: l.etext, kind: MapType::Identical, perm: 0x0a }
    } else if i == 2 {
        RegionPlan { start_va: l.srodata, end_va: l.erodata, kind: MapType::Identical, perm: 0x02 }
    } else if i == 3 {
        RegionPlan { start_va: l.sdata, end_va: l.edata, kind: MapType::Identical, perm: 0x06 }
    } else if i == 4 {
        RegionPlan { start_va: l.sbss, end_va: l.ekernel, kind: MapType::Identical, perm: 0x06 }
    } else if i == 5 {
        RegionPlan { start_va: MMIO_START, end_va: MMIO_END, kind: MapType::Identical, perm: 0x06 }
    } else if i == 6 {
        RegionPlan {
            start_va: (l.ekernel / 4096 * 4096) as u64,
            end_va: MEMORY_END,
            kind: MapType::Identical,
            perm: 0x06,
        }
    } else {
        RegionPlan {
            start_va: kernel_stack_bottom(i - 7) as u64,
            end_va: kernel_stack_top(i - 7) as u64,
            kind: MapType::Framed,
            perm: 0x06,
        }
    }
}

/// The `i`-th region of the kernel address space.
pub fn kernel_region_at(l: &KernelLayout, i: usize) -> (r: RegionPlan)
    requires
        i < KERNEL_REGIONS,
    ensures
        r == kernel_region(*l, i as int),
{
    if i == 0 {
        RegionPlan { start_va: MEMORY_START, end_va: l.stext, kind: MapType::Identical, perm: 0x06 }
    } else if i == 1 {
        RegionPlan { start_va: l.stext, end_va: l.etext, kind: MapType::Identical, perm: 0x0a }
    } else if i == 2 {
        RegionPlan { start_va: l.srodata, end_va: l.erodata, kind: MapType::Identical, perm: 0x02 }
    } else if i == 3 {
        RegionPlan { start_va: l.sdata, end_va: l.edata, kind: MapType::Identical, perm: 0x06 }
    } else if i == 4 {
        RegionPlan { start_va: l.sbss, end_va: l.ekernel, kind: MapType::Identical, perm: 0x06 }
    } else if i == 5 {
        RegionPlan { start_va: MMIO_START, end_va: MMIO_END, kind: MapType::Identical, perm: 0x06 }
    } else if i == 6 {
        RegionPlan {
            start_va: align_down(l.ekernel),
            end_va: MEMORY_END,
            kind: MapType::Identical,
            perm: 0x06,
        }
    } else {
        let (bottom, top) = kernel_stack_position((i - 7) as u64);
        RegionPlan { start_va: bottom, end_va: top, kind: MapType::Framed, perm: 0x06 }
    }
}

/// Whether region `a` is the region that `plan` asks for.
pub open spec fn follows(a: MapArea, plan: RegionPlan) -> bool {
    &&& a.start() == plan.start_va / 4096
    &&& a.end() == plan.end_va / 4096
    &&& a.kind() == plan.kind
    &&& a.perm() == MapPermission(plan.perm)
}

/// Number of pages of the region that `plan` asks for.
pub open spec fn plan_pages(plan: RegionPlan) -> int {
    if plan.start_va / 4096 <= plan.end_va / 4096 {
        plan.end_va / 4096 - plan.start_va / 4096
    } else {
        0
    }
}

/// The `k`-th page of the region that `plan` asks for.
pub open spec fn plan_page(plan: RegionPlan, k: int) -> u64 {
    (plan.start_va / 4096 + k) as u64
}

/// Whether the region that `plan` asks for can be mapped: it has no page,
/// or it lies in one half of the canonical address space, an identical
/// region in the lower one.
pub open spec fn plan_ok(plan: RegionPlan) -> bool {
    plan_pages(plan) == 0 || plan.end_va / 4096 <= LOW_VPN_END || (plan.kind == MapType::Framed
        && plan.start_va / 4096 >= HIGH_VPN_START && plan.end_va / 4096 <= VPN_END)
}

/// Number of frames that the region that `plan` asks for takes at most:
/// a frame for each page of a framed region, none for the pages of an
/// identical region, and the tables that its pages need when none is
/// there.
pub open spec fn plan_cost(plan: RegionPlan) -> int {
    frames_for(plan.kind, plan.start_va as int / 4096, plan.end_va as int / 4096)
}

/// Number of frames that the first `n` regions of the kernel address
/// space take at most.
pub open spec fn plan_sum(l: KernelLayout, n: int) -> int
    decreases n,
{
    if n <= 0 {
        0
    } else {
        plan_sum(l, n - 1) + plan_cost(kernel_region(l, n - 1))
    }
}

/// Number of free frames with which the kernel address space is built
/// whatever is free: one for the root table, two for the tables of the
/// trampoline, and for each region its cost.
pub open spec fn kernel_budget(l: KernelLayout) -> int {
    3 + plan_sum(l, KERNEL_REGIONS as int)
}

/// Whether two regions of the kernel address space, or a region and the
/// trampoline, ask for the same page.
pub open spec fn plans_clash(l: KernelLayout) -> bool {
    ||| exists|i: int, j: int, k: int, m: int|
        0 <= j < i < KERNEL_REGIONS && 0 <= k < plan_pages(kernel_region(l, i)) && 0 <= m
            < plan_pages(kernel_region(l, j)) && same_path(
            #[trigger] plan_page(kernel_region(l, i), k),
            #[trigger] plan_page(kernel_region(l, j), m),
        )
    ||| exists|j: int, m: int|
        0 <= j < KERNEL_REGIONS && 0 <= m < plan_pages(kernel_region(l, j)) && same_path(
            TRAMPOLINE_VPN,
            #[trigger] plan_page(kernel_region(l, j), m),
        )
}

/// An address space whose regions are those of the kernel shows that
/// the layout can be placed: every region lies in one half of the
/// address space, and no two of them, nor one and the trampoline, ask for
/// the same page.
pub proof fn lemma_kernel_placed(ms: MemorySet, l: KernelLayout)
    requires
        ms.wf(),
        ms.trampoline_frame() is Some,
        ms.regions().len() == KERNEL_REGIONS,
        forall|i: int|
            0 <= i < KERNEL_REGIONS ==> follows(#[trigger] ms.regions()[i], kernel_region(l, i)),
    ensures
        forall|i: int| 0 <= i < KERNEL_REGIONS ==> plan_ok(#[trigger] kernel_region(l, i)),
        !plans_clash(l),
{
    reveal(MemorySet::regions_ok);
    reveal(MemorySet::pages_apart);
    reveal(MemorySet::trampoline_ok);
    assert forall|i: int| 0 <= i < KERNEL_REGIONS implies plan_ok(#[trigger] kernel_region(l, i)) by {
        let a = ms.regions()[i];
        assert(follows(a, kernel_region(l, i)));
        assert(a.inv() && a.fully_mapped());
    }
    assert forall|i: int, k: int|
        0 <= i < KERNEL_REGIONS && 0 <= k < plan_pages(kernel_region(l, i)) implies canonical_vpn(
        #[trigger] plan_page(kernel_region(l, i), k),
    ) && ms.regions()[i].covers(plan_page(kernel_region(l, i), k)) by {
        let a = ms.regions()[i];
        assert(follows(a, kernel_region(l, i)));
        assert(a.inv() && a.fully_mapped());
        assert(a.range_ok());
    }
    if exists|i: int, j: int, k: int, m: int|
        0 <= j < i < KERNEL_REGIONS && 0 <= k < plan_pages(kernel_region(l, i)) && 0 <= m
            < plan_pages(kernel_region(l, j)) && same_path(
            #[trigger] plan_page(kernel_region(l, i), k),
            #[trigger] plan_page(kernel_region(l, j), m),
        ) {
        let (i, j, k, m) = choose|i: int, j: int, k: int, m: int|
            0 <= j < i < KERNEL_REGIONS && 0 <= k < plan_pages(kernel_region(l, i)) && 0 <= m
                < plan_pages(kernel_region(l, j)) && same_path(
                #[trigger] plan_page(kernel_region(l, i), k),
                #[trigger] plan_page(kernel_region(l, j), m),
            );
        let x = plan_page(kernel_region(l, i), k);
        let y = plan_page(kernel_region(l, j), m);
        lemma_canonical_paths(x, y);
        assert(ms.regions()[i].covers(x));
        assert(ms.regions()[j].covers(y));
        assert(apart(ms.regions()[i], ms.regions()[j]));
        assert(false);
    }
    if exists|j: int, m: int|
        0 <= j < KERNEL_REGIONS && 0 <= m < plan_pages(kernel_region(l, j)) && same_path(
            TRAMPOLINE_VPN,
            #[trigger] plan_page(kernel_region(l, j), m),
        ) {
        let (j, m) = choose|j: int, m: int|
            0 <= j < KERNEL_REGIONS && 0 <= m < plan_pages(kernel_region(l, j)) && same_path(
                TRAMPOLINE_VPN,
                #[trigger] plan_page(kernel_region(l, j), m),
            );
        let y = plan_page(kernel_region(l, j), m);
        lemma_canonical_paths(TRAMPOLINE_VPN, y);
        assert(ms.regions()[j].covers(y));
        assert(false);
    }
}

/// The pages of the regions add up.
pub proof fn lemma_plan_sum(l: KernelLayout, i: int, n: int)
    requires
        0 <= i <= n,
    ensures
        0 <= plan_sum(l, i) <= plan_sum(l, n),
    decreases n,
{
    if n > 0 {
        let p = kernel_region(l, n - 1);
        if p.start_va / 4096 <= p.end_va / 4096 {
            lemma_frames_for(
                p.kind,
                p.start_va as int / 4096,
                p.start_va as int / 4096,
                p.end_va as int / 4096,
                p.end_va as int / 4096,
            );
        }
        if i < n {
            lemma_plan_sum(l, i, n - 1);
        } else {
            lemma_plan_sum(l, i - 1, n - 1);
        }
    }
}

/// A page that an address space translates before its trampoline is
/// mapped is a page of one of its regions.
proof fn lemma_clash(ms: MemorySet, l: KernelLayout, n: int, v: u64)
    requires
        ms.wf(),
        ms.trampoline_frame() is None,
        ms.regions().len() == n,
        0 <= n <= KERNEL_REGIONS,
        forall|j: int| 0 <= j < n ==> follows(#[trigger] ms.regions()[j], kernel_region(l, j)),
        ms.translate_spec(VirtPageNum(v)) is Some,
    ensures
        exists|j: int, m: int|
            0 <= j < n && 0 <= m < plan_pages(kernel_region(l, j)) && same_path(
                v,
                #[trigger] plan_page(kernel_region(l, j), m),
            ),
{
    ms.lemma_exact_cover(VirtPageNum(v));
    let (j, m) = choose|j: int, m: int|
        0 <= j < ms.regions().len() && 0 <= m < ms.regions()[j].mapped() && same_path(
            v,
            #[trigger] ms.regions()[j].page(m).0,
        );
    ms.lemma_region_shape(j);
    assert(follows(ms.regions()[j], kernel_region(l, j)));
    assert(ms.regions()[j].page(m).0 == plan_page(kernel_region(l, j), m));
}

impl MemorySet {
    /// Builds the address space of the kernel: the memory below the kernel
    /// image, its text (read and execute), its read-only data (read), its
    /// data and its zeroed data up to the end of the image (read and
    /// write), the device window and the memory behind the image (read and
    /// write), each mapped to the frames of the same numbers; one framed
    /// stack for each task below the page of the trap frame, with an
    /// unmapped guard page above each; and the trampoline page, mapped to
    /// the frame that holds the trampoline code.
    ///
    /// When a page cannot be mapped, every frame that was taken is given
    /// back.
    pub fn new_kernel(layout: &KernelLayout, alloc: &mut BitmapFrameAllocator) -> (r: Result<
        MemorySet,
        MapError,
    >)
        requires
            old(alloc).wf(),
        ensures
            final(alloc).wf(),
            final(alloc).start() == old(alloc).start(),
            final(alloc).end() == old(alloc).end(),
            forall|q: u64| old(alloc).is_allocated(q) ==> final(alloc).is_allocated(q),
            match r {
                Ok(ms) => {
                    &&& ms.wf()
                    &&& ms.backed_by(final(alloc))
                    &&& fresh(ms, *final(alloc), *old(alloc))
                    &&& ms.trampoline_frame() == Some(PhysPageNum(layout.strampoline / 4096))
                    &&& ms.regions().len() == KERNEL_REGIONS
                    &&& forall|i: int|
                        0 <= i < KERNEL_REGIONS ==> follows(
                            #[trigger] ms.regions()[i],
                            kernel_region(*layout, i),
                        )
                    &&& layout.strampoline / 4096 < PPN_LIMIT
                    &&& forall|i: int|
                        0 <= i < KERNEL_REGIONS ==> plan_ok(#[trigger] kernel_region(*layout, i))
                    &&& !plans_clash(*layout)
                },
                Err(e) => {
                    &&& final(alloc).frames_in_use() == old(alloc).frames_in_use()
                    &&& e == MapError::OutOfRange || e == MapError::AlreadyMapped || e
                        == MapError::OutOfMemory
                    &&& e == MapError::OutOfRange ==> layout.strampoline / 4096 >= PPN_LIMIT
                        || exists|i: int|
                        0 <= i < KERNEL_REGIONS && !plan_ok(#[trigger] kernel_region(*layout, i))
                    &&& e == MapError::AlreadyMapped ==> plans_clash(*layout)
                    &&& e == MapError::OutOfMemory ==> old(alloc).free_count() < kernel_budget(
                        *layout,
                    )
                },
            },
    {
        let frame = PhysPageNum(layout.strampoline / 4096);
        if frame.0 >= PPN_LIMIT {
            return Err(MapError::OutOfRange);
        }
        proof {
            lemma_plan_sum(*layout, 0, KERNEL_REGIONS as int);
        }
        let mut ms = match MemorySet::new_bare(alloc) {
            Some(ms) => ms,
            None => {
                return Err(MapError::OutOfMemory);
            },
        };
        proof {
            old(alloc).lemma_allocated_finite();
        }
        let mut i: usize = 0;
        while i < KERNEL_REGIONS
            invariant
                i <= KERNEL_REGIONS,
                old(alloc).wf(),
                ms.wf(),
                alloc.wf(),
                ms.backed_by(alloc),
                ms.trampoline_frame() is None,
                fresh(ms, *alloc, *old(alloc)),
                ms.regions().len() == i,
                forall|j: int|
                    0 <= j < i ==> follows(#[trigger] ms.regions()[j], kernel_region(*layout, j)),
                ms.owned_count() <= 1 + plan_sum(*layout, i as int),
            decreases KERNEL_REGIONS - i,
        {
            let plan = kernel_region_at(layout, i);
            let area = MapArea::new(
                plan.start_va,
                plan.end_va,
                plan.kind,
                MapPermission(plan.perm),
            );
            let ghost before = ms;
            let ghost al = *alloc;
            match ms.push(area, None, alloc) {
                Ok(()) => {
                    proof {
                        lemma_fresh_step(before, ms, *old(alloc), al, *alloc);
                        lemma_budget_step(
                            before,
                            ms,
                            *old(alloc),
                            al,
                            *alloc,
                            1 + plan_sum(*layout, i as int),
                            plan_cost(kernel_region(*layout, i as int)),
                            false,
                        );
                        assert forall|j: int| 0 <= j < i + 1 implies follows(
                            #[trigger] ms.regions()[j],
                            kernel_region(*layout, j),
                        ) by {
                            if j < i {
                                assert(ms.regions()[j] == before.regions()[j]);
                            }
                        }
                    }
                },
                Err(e) => {
                    proof {
                        lemma_fresh_step(before, ms, *old(alloc), al, *alloc);
                        lemma_budget_step(
                            before,
                            ms,
                            *old(alloc),
                            al,
                            *alloc,
                            1 + plan_sum(*layout, i as int),
                            plan_cost(kernel_region(*layout, i as int)),
                            e == MapError::OutOfMemory,
                        );
                        lemma_plan_sum(*layout, i + 1, KERNEL_REGIONS as int);
                        if e == MapError::AlreadyMapped {
                            let k = choose|k: int|
                                0 <= k < area.page_count() && before.translate_spec(
                                    #[trigger] area.page(k),
                                ) is Some;
                            lemma_clash(before, *layout, i as int, area.page(k).0);
                            let (j, m) = choose|j: int, m: int|
                                0 <= j < i && 0 <= m < plan_pages(kernel_region(*layout, j))
                                    && same_path(
                                    area.page(k).0,
                                    #[trigger] plan_page(kernel_region(*layout, j), m),
                                );
                            assert(area.page(k).0 == plan_page(
                                kernel_region(*layout, i as int),
                                k,
                            ));
                        }
                        if e == MapError::OutOfRange {
                            assert(!plan_ok(kernel_region(*layout, i as int)));
                        }
                    }
                    ms.give_back(alloc, Ghost(*old(alloc)));
                    return Err(e);
                },
            }
            i += 1;
        }
        let ghost before = ms;
        let ghost al = *alloc;
        match ms.map_trampoline(frame, alloc) {
            Ok(()) => {
                proof {
                    lemma_fresh_step(before, ms, *old(alloc), al, *alloc);
                    lemma_kernel_placed(ms, *layout);
                }
                Ok(ms)
            },
            Err(e) => {
                proof {
                    lemma_fresh_step(before, ms, *old(alloc), al, *alloc);
                    lemma_budget_step(
                        before,
                        ms,
                        *old(alloc),
                        al,
                        *alloc,
                        1 + plan_sum(*layout, KERNEL_REGIONS as int),
                        2,
                        e == MapError::OutOfMemory,
                    );
                    if e == MapError::AlreadyMapped {
                        lemma_clash(before, *layout, KERNEL_REGIONS as int, TRAMPOLINE_VPN);
                    }
                }
                ms.give_back(alloc, Ghost(*old(alloc)));
                Err(e)
            },
        }
    }
}

} // verus!
