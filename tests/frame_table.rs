use frame_alloc::frame::FrameType;
use frame_alloc::memory_map::{frame_type_of, table_host, table_size, MmapEntry, MmapEntryType};
use frame_alloc::slab::SlabAllocator;

const PAGE: usize = 4096;

fn entry(base: u64, len: u64, typ: MmapEntryType) -> MmapEntry {
    MmapEntry { base, len, typ }
}

/// Ten `Generic` frames at the bottom, and one usable frame above them that
/// holds the table.
fn ten_generic(hhdm: usize) -> SlabAllocator {
    let map = vec![
        entry(0xA000, 0x1000, MmapEntryType::Usable),
        entry(0, 0xA000, MmapEntryType::Usable),
    ];
    SlabAllocator::from_memory_map(&map, hhdm).unwrap()
}

#[test]
fn window_search_skips_blocked_frame() {
    let mut pmm = ten_generic(0);
    assert_eq!(pmm.lock_next_many(3, 4096), Ok(0));
    assert_eq!(pmm.lock(5 * PAGE), Ok(()));
    assert_eq!(pmm.lock_next_many(3, 4096), Ok(6 * PAGE));
}

#[test]
fn table_in_exact_region_is_reserved() {
    let map = vec![
        entry(0, 0x1000, MmapEntryType::Usable),
        entry(0x1000, 0x9000, MmapEntryType::Reserved),
    ];
    assert_eq!(table_host(&map), Some(0));
    let mut pmm = SlabAllocator::from_memory_map(&map, 0).unwrap();
    assert_eq!(pmm.total_memory(), 10 * PAGE);
    assert_eq!(pmm.frame_state(0), Some((false, FrameType::Reserved)));
    assert_eq!(pmm.frame_state(9), Some((false, FrameType::Reserved)));
    assert_eq!(pmm.frame_state(10), None);
    assert!(pmm.lock_next().is_err());
}

#[test]
fn no_region_for_table() {
    let map = vec![
        entry(0, 0x1000, MmapEntryType::Reserved),
        entry(0x1000, 0x1000, MmapEntryType::AcpiReclaimable),
    ];
    assert_eq!(table_host(&map), None);
    let empty: Vec<MmapEntry> = Vec::new();
    assert_eq!(table_host(&empty), None);
    let small = vec![
        entry(0, 0x1000, MmapEntryType::Reserved),
        entry(0x1000, 0x800, MmapEntryType::Usable),
    ];
    assert_eq!(table_host(&small), None);
}

#[test]
fn table_host_is_first_fitting_usable_region() {
    let map = vec![
        entry(0, 0x1000, MmapEntryType::Reserved),
        entry(0x1000, 0x1000, MmapEntryType::Usable),
        entry(0x2000, 0x2000, MmapEntryType::Usable),
    ];
    assert_eq!(table_size(&map), (4, 4096));
    assert_eq!(table_host(&map), Some(1));
    // 3000 frames need 6000 bytes of table: two frames.
    let big = vec![
        entry(0, 0x1000, MmapEntryType::Usable),
        entry(0x1000, 0x2000, MmapEntryType::Usable),
        entry(0x3000, 3000 * 0x1000 - 0x3000, MmapEntryType::Reserved),
    ];
    assert_eq!(table_size(&big), (3000, 8192));
    assert_eq!(table_host(&big), Some(1));
}

#[test]
fn region_types_and_table_placement() {
    let map = vec![
        entry(0, 0x2000, MmapEntryType::BootloaderReclaimable),
        entry(0x2000, 0x3000, MmapEntryType::Usable),
        entry(0x5000, 0x1000, MmapEntryType::BadMemory),
        entry(0x6000, 0x1000, MmapEntryType::AcpiReclaimable),
        entry(0x8000, 0x1000, MmapEntryType::Framebuffer),
    ];
    let mut pmm = SlabAllocator::from_memory_map(&map, 0).unwrap();
    assert_eq!(pmm.total_memory(), 9 * PAGE);
    assert_eq!(pmm.frame_state(0), Some((false, FrameType::BootReclaim)));
    assert_eq!(pmm.frame_state(1), Some((false, FrameType::BootReclaim)));
    // The table takes the first frame of the first usable region.
    assert_eq!(pmm.frame_state(2), Some((false, FrameType::Reserved)));
    assert_eq!(pmm.frame_state(3), Some((false, FrameType::Generic)));
    assert_eq!(pmm.frame_state(4), Some((false, FrameType::Generic)));
    assert_eq!(pmm.frame_state(5), Some((false, FrameType::Unusable)));
    assert_eq!(pmm.frame_state(6), Some((false, FrameType::AcpiReclaim)));
    assert_eq!(pmm.frame_state(7), Some((false, FrameType::Unusable)));
    assert_eq!(pmm.frame_state(8), Some((false, FrameType::Reserved)));
}

#[test]
fn later_region_overrides_earlier() {
    let map = vec![
        entry(0, 0x4000, MmapEntryType::Usable),
        entry(0x2000, 0x1000, MmapEntryType::KernelAndModules),
    ];
    let mut pmm = SlabAllocator::from_memory_map(&map, 0).unwrap();
    assert_eq!(pmm.frame_state(0), Some((false, FrameType::Reserved)));
    assert_eq!(pmm.frame_state(1), Some((false, FrameType::Generic)));
    assert_eq!(pmm.frame_state(2), Some((false, FrameType::Reserved)));
    assert_eq!(pmm.frame_state(3), Some((false, FrameType::Generic)));
}

#[test]
fn lock_next_takes_lowest_generic() {
    let mut pmm = ten_generic(0);
    assert_eq!(pmm.lock_next(), Ok(0));
    assert_eq!(pmm.lock_next(), Ok(PAGE));
    assert_eq!(pmm.free(0), Ok(()));
    assert_eq!(pmm.lock_next(), Ok(0));
    assert_eq!(pmm.frame_state(0), Some((true, FrameType::Generic)));
}

#[test]
fn lock_next_exhausts() {
    let mut pmm = ten_generic(0);
    for i in 0..10 {
        assert_eq!(pmm.lock_next(), Ok(i * PAGE));
    }
    assert!(pmm.lock_next().is_err());
    assert!(pmm.lock_next_many(1, 4096).is_err());
}

#[test]
fn lock_free_round_trip() {
    let mut pmm = ten_generic(0);
    assert_eq!(pmm.frame_state(4), Some((false, FrameType::Generic)));
    assert_eq!(pmm.lock(4 * PAGE), Ok(()));
    assert_eq!(pmm.frame_state(4), Some((true, FrameType::Generic)));
    assert_eq!(pmm.free(4 * PAGE), Ok(()));
    assert_eq!(pmm.frame_state(4), Some((false, FrameType::Generic)));
    assert_eq!(pmm.lock(4 * PAGE), Ok(()));
}

#[test]
fn double_lock_and_double_free_fail() {
    let mut pmm = ten_generic(0);
    assert_eq!(pmm.lock(2 * PAGE + 17), Ok(()));
    assert!(pmm.lock(2 * PAGE).is_err());
    assert_eq!(pmm.free(2 * PAGE), Ok(()));
    assert!(pmm.free(2 * PAGE).is_err());
    assert!(pmm.lock(11 * PAGE).is_err());
    assert!(pmm.free(11 * PAGE).is_err());
}

#[test]
fn lock_takes_any_type() {
    let mut pmm = ten_generic(0);
    // Frame 10 holds the table and is reserved, but can be claimed by address.
    assert_eq!(pmm.frame_state(10), Some((false, FrameType::Reserved)));
    assert_eq!(pmm.lock(10 * PAGE), Ok(()));
    assert_eq!(pmm.frame_state(10), Some((true, FrameType::Reserved)));
}

#[test]
fn lock_many_is_all_or_nothing() {
    let mut pmm = ten_generic(0);
    assert_eq!(pmm.lock(2 * PAGE), Ok(()));
    assert!(pmm.lock_many(0, 4).is_err());
    assert_eq!(pmm.frame_state(0), Some((false, FrameType::Generic)));
    assert_eq!(pmm.frame_state(1), Some((false, FrameType::Generic)));
    assert_eq!(pmm.frame_state(3), Some((false, FrameType::Generic)));
    assert_eq!(pmm.lock_many(3 * PAGE, 4), Ok(()));
    assert_eq!(pmm.frame_state(6), Some((true, FrameType::Generic)));
    assert_eq!(pmm.frame_state(7), Some((false, FrameType::Generic)));
    assert!(pmm.lock_many(8 * PAGE, 4).is_err());
    assert_eq!(pmm.frame_state(8), Some((false, FrameType::Generic)));
}

#[test]
fn lock_next_many_failure_changes_nothing() {
    let mut pmm = ten_generic(0);
    assert_eq!(pmm.lock(3 * PAGE), Ok(()));
    assert_eq!(pmm.lock(7 * PAGE), Ok(()));
    assert!(pmm.lock_next_many(4, 4096).is_err());
    for i in 0..10 {
        let locked = i == 3 || i == 7;
        assert_eq!(pmm.frame_state(i), Some((locked, FrameType::Generic)));
    }
    assert_eq!(pmm.lock_next_many(3, 4096), Ok(0));
}

#[test]
fn lock_next_many_alignment() {
    let mut pmm = ten_generic(0);
    assert_eq!(pmm.lock(0), Ok(()));
    assert_eq!(pmm.lock_next_many(1, 8192), Ok(2 * PAGE));
    assert_eq!(pmm.lock_next_many(2, 16384), Ok(4 * PAGE));
    // Below one frame, the alignment counts as one frame.
    assert_eq!(pmm.lock_next_many(1, 64), Ok(PAGE));
    let addr = pmm.lock_next_many(2, 8192).unwrap();
    assert_eq!(addr % 8192, 0);
    assert_eq!(addr, 6 * PAGE);
}

#[test]
fn window_reaching_table_end() {
    let mut pmm = ten_generic(0);
    assert_eq!(pmm.lock_many(0, 7), Ok(()));
    assert_eq!(pmm.lock_next_many(3, 4096), Ok(7 * PAGE));
    assert!(pmm.lock_next_many(11, 4096).is_err());
}

#[test]
fn only_generic_frames_are_searched() {
    let map = vec![
        entry(0x6000, 0x1000, MmapEntryType::Usable),
        entry(0, 0x1000, MmapEntryType::BadMemory),
        entry(0x1000, 0x1000, MmapEntryType::Usable),
        entry(0x2000, 0x1000, MmapEntryType::AcpiNvs),
        entry(0x3000, 0x3000, MmapEntryType::Usable),
    ];
    let mut pmm = SlabAllocator::from_memory_map(&map, 0).unwrap();
    assert_eq!(pmm.lock_next_many(2, 4096), Ok(3 * PAGE));
    assert_eq!(pmm.lock_next(), Ok(PAGE));
    assert_eq!(pmm.lock_next(), Ok(5 * PAGE));
    assert!(pmm.lock_next().is_err());
}

#[test]
fn successive_claims_are_disjoint() {
    let mut pmm = ten_generic(0);
    let a = pmm.lock_next_many(3, 4096).unwrap() / PAGE;
    let b = pmm.lock_next().unwrap() / PAGE;
    let c = pmm.lock_next_many(2, 8192).unwrap() / PAGE;
    let mut seen = vec![false; 10];
    for i in (a..a + 3).chain(b..b + 1).chain(c..c + 2) {
        assert!(!seen[i]);
        seen[i] = true;
    }
}

#[test]
fn allocate_to_returns_direct_map_address() {
    let hhdm = 0xffff_8000_0000_0000usize;
    let mut pmm = ten_generic(hhdm);
    assert_eq!(pmm.allocate_to(2 * PAGE, 3), Ok(hhdm + 2 * PAGE));
    assert!(pmm.allocate_to(4 * PAGE, 1).is_err());
    assert_eq!(pmm.frame_state(4), Some((true, FrameType::Generic)));
    assert_eq!(pmm.frame_state(5), Some((false, FrameType::Generic)));
}

#[test]
fn memory_map_kinds_give_frame_types() {
    assert_eq!(frame_type_of(MmapEntryType::Usable), FrameType::Generic);
    assert_eq!(frame_type_of(MmapEntryType::BootloaderReclaimable), FrameType::BootReclaim);
    assert_eq!(frame_type_of(MmapEntryType::AcpiReclaimable), FrameType::AcpiReclaim);
    assert_eq!(frame_type_of(MmapEntryType::AcpiNvs), FrameType::Reserved);
    assert_eq!(frame_type_of(MmapEntryType::Reserved), FrameType::Reserved);
    assert_eq!(frame_type_of(MmapEntryType::KernelAndModules), FrameType::Reserved);
    assert_eq!(frame_type_of(MmapEntryType::Framebuffer), FrameType::Reserved);
    assert_eq!(frame_type_of(MmapEntryType::BadMemory), FrameType::Unusable);
}
