use frame_alloc::frame::FrameType;
use frame_alloc::memory_map::{MmapEntry, MmapEntryType};
use frame_alloc::slab::{route, AllocRoute, SlabAllocator};

const PAGE: usize = 4096;
const HHDM: usize = 0x1000_0000;

fn allocator() -> SlabAllocator {
    let map = vec![
        MmapEntry { base: 0x10000, len: 0x1000, typ: MmapEntryType::Usable },
        MmapEntry { base: 0, len: 0x10000, typ: MmapEntryType::Usable },
    ];
    SlabAllocator::from_memory_map(&map, HHDM).unwrap()
}

#[test]
fn routing_by_size_and_alignment() {
    assert_eq!(route(50, 8), AllocRoute::Slab(64));
    assert_eq!(route(64, 64), AllocRoute::Slab(64));
    assert_eq!(route(65, 8), AllocRoute::Slab(128));
    assert_eq!(route(8, 128), AllocRoute::Slab(128));
    assert_eq!(route(250, 8), AllocRoute::Slab(256));
    assert_eq!(route(256, 8), AllocRoute::Slab(256));
    assert_eq!(route(512, 512), AllocRoute::Slab(512));
    assert_eq!(route(600, 8), AllocRoute::Frame);
    assert_eq!(route(8, 1024), AllocRoute::Frame);
    assert_eq!(route(4096, 4096), AllocRoute::Frame);
    assert_eq!(route(9000, 8), AllocRoute::Frames(3));
    assert_eq!(route(8192, 8), AllocRoute::Frames(2));
    assert_eq!(route(100, 8192), AllocRoute::Frames(1));
}

#[test]
fn small_request_takes_slots_in_order() {
    let mut a = allocator();
    assert_eq!(a.allocate(50, 8), Ok((HHDM, 64)));
    assert_eq!(a.allocate(40, 8), Ok((HHDM + 64, 64)));
    assert_eq!(a.frame_state(0), Some((true, FrameType::Generic)));
    assert_eq!(a.frame_state(1), Some((false, FrameType::Generic)));
    // Another class cuts its own frame.
    assert_eq!(a.allocate(200, 16), Ok((HHDM + PAGE, 256)));
    assert_eq!(a.allocate(100, 8), Ok((HHDM + 2 * PAGE, 128)));
}

#[test]
fn freed_slot_is_reused_first() {
    let mut a = allocator();
    assert_eq!(a.allocate(64, 8), Ok((HHDM, 64)));
    assert_eq!(a.allocate(64, 8), Ok((HHDM + 64, 64)));
    assert_eq!(a.allocate(64, 8), Ok((HHDM + 128, 64)));
    a.deallocate(HHDM + 64, 64, 8);
    assert_eq!(a.allocate(64, 8), Ok((HHDM + 64, 64)));
    assert_eq!(a.allocate(64, 8), Ok((HHDM + 192, 64)));
    // The slab's frame stays claimed.
    assert_eq!(a.frame_state(0), Some((true, FrameType::Generic)));
}

#[test]
fn full_slab_gets_a_new_frame() {
    let mut a = allocator();
    for i in 0..8 {
        assert_eq!(a.allocate(512, 8), Ok((HHDM + i * 512, 512)));
    }
    assert_eq!(a.allocate(512, 8), Ok((HHDM + PAGE, 512)));
}

#[test]
fn one_page_request_takes_one_frame() {
    let mut a = allocator();
    assert_eq!(a.allocate(600, 8), Ok((HHDM, PAGE)));
    assert_eq!(a.frame_state(0), Some((true, FrameType::Generic)));
    assert_eq!(a.frame_state(1), Some((false, FrameType::Generic)));
    a.deallocate(HHDM, 600, 8);
    assert_eq!(a.frame_state(0), Some((false, FrameType::Generic)));
}

#[test]
fn large_request_takes_a_run() {
    let mut a = allocator();
    assert_eq!(a.allocate(9000, 8), Ok((HHDM, 3 * PAGE)));
    assert_eq!(a.frame_state(2), Some((true, FrameType::Generic)));
    assert_eq!(a.frame_state(3), Some((false, FrameType::Generic)));
    assert_eq!(a.allocate(8192, 8192), Ok((HHDM + 4 * PAGE, 2 * PAGE)));
    a.deallocate(HHDM, 9000, 8);
    assert_eq!(a.frame_state(0), Some((false, FrameType::Generic)));
    assert_eq!(a.frame_state(2), Some((false, FrameType::Generic)));
    assert_eq!(a.frame_state(4), Some((true, FrameType::Generic)));
}

#[test]
fn exhausted_memory_fails() {
    let mut a = allocator();
    assert!(a.allocate(17 * PAGE, 8).is_err());
    assert_eq!(a.allocate(16 * PAGE, 8), Ok((HHDM, 16 * PAGE)));
    assert!(a.allocate(600, 8).is_err());
    assert!(a.allocate(50, 8).is_err());
    assert_eq!(a.frame_state(0), Some((true, FrameType::Generic)));
}

#[test]
fn freeing_a_slab_frame_drops_the_slab() {
    let mut a = allocator();
    assert_eq!(a.allocate(50, 8), Ok((HHDM, 64)));
    assert_eq!(a.allocate(50, 8), Ok((HHDM + 64, 64)));
    assert_eq!(a.free(0), Ok(()));
    assert_eq!(a.frame_state(0), Some((false, FrameType::Generic)));
    assert!(a.free(0).is_err());
    // The class has no slab left, so the next request cuts a fresh frame.
    assert_eq!(a.allocate(50, 8), Ok((HHDM, 64)));
    assert_eq!(a.frame_state(0), Some((true, FrameType::Generic)));
}

#[test]
fn releasing_a_run_keeps_slab_frames() {
    let mut a = allocator();
    assert_eq!(a.allocate(50, 8), Ok((HHDM, 64)));
    assert_eq!(a.lock(PAGE), Ok(()));
    a.deallocate(HHDM, 9000, 8);
    assert_eq!(a.frame_state(0), Some((true, FrameType::Generic)));
    assert_eq!(a.frame_state(1), Some((false, FrameType::Generic)));
    assert_eq!(a.allocate(50, 8), Ok((HHDM + 64, 64)));
}

#[test]
fn freeing_a_slot_clears_only_its_bit() {
    let mut a = allocator();
    for i in 0..4 {
        assert_eq!(a.allocate(64, 8), Ok((HHDM + i * 64, 64)));
    }
    a.deallocate(HHDM + 2 * 64 + 10, 64, 8);
    assert_eq!(a.allocate(64, 8), Ok((HHDM + 2 * 64, 64)));
    assert_eq!(a.allocate(64, 8), Ok((HHDM + 4 * 64, 64)));
}
