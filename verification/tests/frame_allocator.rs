use chronos_kernel::mm::frame_allocator::{BitmapFrameAllocator, FrameAllocator};
use chronos_kernel::mm::memory_layout::PhysPageNum;

fn window(frames: u64) -> BitmapFrameAllocator {
    let mut a = BitmapFrameAllocator::new();
    a.init(0x8000_0000, 0x8000_0000 + frames * 4096);
    a
}

#[test]
fn new_allocator_is_empty() {
    let a = BitmapFrameAllocator::new();
    assert_eq!(a.total_frames(), 0);
    assert_eq!(a.free_frames(), 0);
}

#[test]
fn init_keeps_whole_frames_only() {
    let mut a = BitmapFrameAllocator::new();
    a.init(0x8000_0001, 0x8000_3fff);
    assert_eq!(a.total_frames(), 2);
    assert_eq!(a.free_frames(), 2);
    assert_eq!(a.alloc_frame(), Some(PhysPageNum::new(0x80001)));
    assert_eq!(a.alloc_frame(), Some(PhysPageNum::new(0x80002)));
    assert_eq!(a.alloc_frame(), None);
}

#[test]
fn alloc_hands_out_frames_in_order() {
    let mut a = window(4);
    assert_eq!(a.alloc_frame(), Some(PhysPageNum::new(0x80000)));
    assert_eq!(a.alloc_frame(), Some(PhysPageNum::new(0x80001)));
    assert_eq!(a.free_frames(), 2);
    assert!(a.is_used(PhysPageNum::new(0x80000)));
    assert!(!a.is_used(PhysPageNum::new(0x80002)));
}

#[test]
fn paired_alloc_and_dealloc_keeps_the_free_count() {
    let mut a = window(8);
    let _ = a.alloc_frame();
    let before = a.free_frames();
    let p = a.alloc_frame().unwrap();
    assert_eq!(a.free_frames(), before - 1);
    a.dealloc(p);
    assert_eq!(a.free_frames(), before);
    assert!(!a.is_used(p));
}

#[test]
fn cursor_rotates_past_a_freed_frame() {
    let mut a = window(4);
    let first = a.alloc_frame().unwrap();
    let _second = a.alloc_frame().unwrap();
    a.dealloc(first);
    // The scan goes on behind the frame taken last, and comes back to the
    // freed frame only when the frames behind it are used up.
    assert_eq!(a.alloc_frame(), Some(PhysPageNum::new(0x80002)));
    assert_eq!(a.alloc_frame(), Some(PhysPageNum::new(0x80003)));
    assert_eq!(a.alloc_frame(), Some(first));
    assert_eq!(a.alloc_frame(), None);
    assert_eq!(a.free_frames(), 0);
}

#[test]
fn dealloc_outside_the_window_changes_nothing() {
    let mut a = window(4);
    let _ = a.alloc_frame();
    a.dealloc(PhysPageNum::new(0x7ffff));
    a.dealloc(PhysPageNum::new(0x80004));
    a.dealloc(PhysPageNum::new(u64::MAX));
    assert_eq!(a.free_frames(), 3);
}

#[test]
fn dealloc_of_a_free_frame_changes_nothing() {
    let mut a = window(4);
    a.dealloc(PhysPageNum::new(0x80001));
    assert_eq!(a.free_frames(), 4);
}

#[test]
fn frames_beyond_one_bitmap_word() {
    let mut a = window(130);
    for i in 0..130u64 {
        assert_eq!(a.alloc_frame(), Some(PhysPageNum::new(0x80000 + i)));
    }
    assert_eq!(a.alloc_frame(), None);
    a.dealloc(PhysPageNum::new(0x80000 + 64));
    assert_eq!(a.free_frames(), 1);
    assert_eq!(a.alloc_frame(), Some(PhysPageNum::new(0x80000 + 64)));
}

#[test]
fn allocator_through_the_trait() {
    fn take<A: FrameAllocator>(a: &mut A) -> Option<PhysPageNum> {
        a.alloc_frame()
    }
    let mut a = window(2);
    let p = take(&mut a).unwrap();
    assert_eq!(p, PhysPageNum::new(0x80000));
    FrameAllocator::dealloc(&mut a, p);
    assert_eq!(a.free_frames(), 2);
    // the cursor stands behind the frame that was taken
    assert_eq!(take(&mut a), Some(PhysPageNum::new(0x80001)));
    assert_eq!(take(&mut a), Some(PhysPageNum::new(0x80000)));
    // nothing comes only when every frame is in use
    assert_eq!(take(&mut a), None);
    assert_eq!(a.free_frames(), 0);
    FrameAllocator::dealloc(&mut a, PhysPageNum::new(0x90000));
    assert_eq!(a.free_frames(), 0);
}
