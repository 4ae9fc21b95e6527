use sv39_mm::address::PhysPageNum;
use sv39_mm::frame_allocator::{frame_alloc, frame_dealloc, frame_remain_num, init_frame_allocator,
    FrameDeallocError, FrameTracker, StackFrameAllocator};

#[test]
fn alloc_hands_out_fresh_pages_in_order() {
    let mut a = init_frame_allocator(PhysPageNum(0x100), PhysPageNum(0x104));
    assert_eq!(a.allocate(), Some(PhysPageNum(0x100)));
    assert_eq!(a.allocate(), Some(PhysPageNum(0x101)));
    assert_eq!(a.allocate(), Some(PhysPageNum(0x102)));
    assert_eq!(a.allocate(), Some(PhysPageNum(0x103)));
    assert_eq!(a.allocate(), None);
}

#[test]
fn alloc_never_repeats_a_live_page() {
    // Allocated-and-not-freed page numbers never come back.
    let mut a = init_frame_allocator(PhysPageNum(0), PhysPageNum(64));
    let mut seen = Vec::new();
    while let Some(ppn) = a.allocate() {
        assert!(!seen.contains(&ppn));
        seen.push(ppn);
    }
    assert_eq!(seen.len(), 64);
}

#[test]
fn recycled_pages_are_reused_lifo() {
    let mut a = init_frame_allocator(PhysPageNum(10), PhysPageNum(20));
    let p0 = a.allocate().unwrap();
    let p1 = a.allocate().unwrap();
    assert_eq!(a.dealloc(p0), Ok(()));
    assert_eq!(a.dealloc(p1), Ok(()));
    // Most recently freed first.
    assert_eq!(a.allocate(), Some(p1));
    assert_eq!(a.allocate(), Some(p0));
}

#[test]
fn double_free_is_detected() {
    let mut a = init_frame_allocator(PhysPageNum(10), PhysPageNum(20));
    let p = a.allocate().unwrap();
    assert_eq!(a.dealloc(p), Ok(()));
    assert_eq!(a.dealloc(p), Err(FrameDeallocError::DoubleFree));
}

#[test]
fn freeing_a_never_allocated_page_is_detected() {
    let mut a = init_frame_allocator(PhysPageNum(10), PhysPageNum(20));
    assert_eq!(a.dealloc(PhysPageNum(15)), Err(FrameDeallocError::NotAllocated));
    let _ = a.allocate().unwrap();
    assert_eq!(a.dealloc(PhysPageNum(11)), Err(FrameDeallocError::NotAllocated));
}

#[test]
fn remaining_count_tracks_both_pools() {
    let mut a = init_frame_allocator(PhysPageNum(0), PhysPageNum(8));
    assert_eq!(frame_remain_num(&a), 8);
    let t = frame_alloc(&mut a).unwrap();
    let _u = frame_alloc(&mut a).unwrap();
    assert_eq!(frame_remain_num(&a), 6);
    assert_eq!(frame_dealloc(&mut a, t.ppn), Ok(()));
    assert_eq!(frame_remain_num(&a), 7);
}

#[test]
fn tracker_wraps_the_allocated_page() {
    let mut a = StackFrameAllocator::new();
    a.init(PhysPageNum(5), PhysPageNum(6));
    let t = frame_alloc(&mut a).unwrap();
    assert_eq!(t.ppn, PhysPageNum(5));
    assert_eq!(FrameTracker::new(PhysPageNum(9)).ppn, PhysPageNum(9));
    assert!(frame_alloc(&mut a).is_none());
}

#[test]
fn alloc_release_alloc_cycles() {
    // Five frames taken, all released, five taken again: the pool recovers
    // completely and hands out only page numbers it owns.
    let mut a = init_frame_allocator(PhysPageNum(100), PhysPageNum(105));
    let mut v: Vec<FrameTracker> = Vec::new();
    for _ in 0..5 {
        v.push(frame_alloc(&mut a).unwrap());
    }
    assert!(frame_alloc(&mut a).is_none());
    for t in v.drain(..) {
        assert_eq!(frame_dealloc(&mut a, t.ppn), Ok(()));
    }
    for _ in 0..5 {
        let t = frame_alloc(&mut a).unwrap();
        assert!(t.ppn.0 >= 100 && t.ppn.0 < 105);
        v.push(t);
    }
    assert!(frame_alloc(&mut a).is_none());
}
