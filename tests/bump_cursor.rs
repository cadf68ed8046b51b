use frame_alloc::bump::BumpAllocator;
use frame_alloc::frame::FrameType;
use frame_alloc::memory_map::{MmapEntry, MmapEntryType};
use frame_alloc::slab::SlabAllocator;

const PAGE: usize = 4096;

fn pmm() -> SlabAllocator {
    let map = vec![
        MmapEntry { base: 0x4000, len: 0x1000, typ: MmapEntryType::Usable },
        MmapEntry { base: 0, len: 0x4000, typ: MmapEntryType::Usable },
    ];
    SlabAllocator::from_memory_map(&map, 0).unwrap()
}

#[test]
fn cursor_starts_at_second_page() {
    assert_eq!(BumpAllocator::new().bottom(), PAGE);
}

#[test]
fn allocation_takes_a_frame_per_page() {
    let mut pmm = pmm();
    let mut bump = BumpAllocator::new();
    let (addr, frames) = bump.allocate(&mut pmm, 5000).unwrap();
    assert_eq!(addr, PAGE);
    assert_eq!(frames, vec![0, PAGE]);
    assert_eq!(bump.bottom(), 3 * PAGE);
    let (addr, frames) = bump.allocate(&mut pmm, 1).unwrap();
    assert_eq!(addr, 3 * PAGE);
    assert_eq!(frames, vec![2 * PAGE]);
    assert_eq!(bump.bottom(), 4 * PAGE);
    let (addr, frames) = bump.allocate(&mut pmm, 0).unwrap();
    assert_eq!(addr, 4 * PAGE);
    assert!(frames.is_empty());
}

#[test]
fn failed_allocation_gives_frames_back() {
    let mut pmm = pmm();
    let mut bump = BumpAllocator::new();
    assert!(bump.allocate(&mut pmm, 5 * PAGE).is_err());
    assert_eq!(bump.bottom(), PAGE);
    for i in 0..4 {
        assert_eq!(pmm.frame_state(i), Some((false, FrameType::Generic)));
    }
    let (_, frames) = bump.allocate(&mut pmm, 4 * PAGE).unwrap();
    assert_eq!(frames, vec![0, PAGE, 2 * PAGE, 3 * PAGE]);
    bump.dealloc(PAGE, 4 * PAGE);
    assert_eq!(bump.bottom(), 5 * PAGE);
}
