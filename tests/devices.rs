use frame_alloc::memory::{page_aligned_allocator, stack_aligned_allocator, Stack, MMIO};
use frame_alloc::pci::{
    device_address, interrupt_line_from, interrupt_pin_from, is_present_vendor, PCICapablities, PCICapablitiesIterator,
    PCIeBus, StandardRegister,
};
use frame_alloc::pcie;
use frame_alloc::task::{segment_to_mmap_permissions, MmapPermissions, Priority};

#[test]
fn segment_permissions() {
    assert_eq!(segment_to_mmap_permissions(0b10), MmapPermissions::ReadWrite);
    assert_eq!(segment_to_mmap_permissions(0b01), MmapPermissions::ReadExecute);
    assert_eq!(segment_to_mmap_permissions(0b00), MmapPermissions::ReadOnly);
    assert_eq!(segment_to_mmap_permissions(0b100), MmapPermissions::ReadOnly);
    assert_eq!(segment_to_mmap_permissions(0b110), MmapPermissions::ReadWrite);
}

#[test]
fn priorities_are_ordered() {
    assert!(Priority::Idle < Priority::Low);
    assert!(Priority::Normal < Priority::High);
    assert!(Priority::High < Priority::Critical);
}

#[test]
fn aligned_allocators() {
    let page = page_aligned_allocator();
    assert_eq!(page.alignment(), 4096);
    assert_eq!(page.aligned_layout(100, 8), Some((100, 4096)));
    assert_eq!(page.aligned_layout(100, 8192), Some((100, 8192)));
    assert_eq!(page.aligned_layout(isize::MAX as usize, 8), None);
    let stack = stack_aligned_allocator();
    assert_eq!(stack.alignment(), 16);
    assert_eq!(stack.aligned_layout(24, 8), Some((24, 16)));
}

#[test]
fn stack_is_zeroed() {
    let stack = Stack::<256>::new();
    assert_eq!(stack.len(), 256);
}

#[test]
fn device_slots() {
    assert_eq!(device_address(0xE000_0000, 0), 0xE000_0000);
    assert_eq!(device_address(0xE000_0000, 3), 0xE001_8000);
    assert!(is_present_vendor(0x8086));
    assert!(!is_present_vendor(0));
    assert!(!is_present_vendor(0xFFFF));
}

#[test]
fn bus_devices() {
    let bus = PCIeBus::new(vec![3u8, 5, 7]);
    assert!(bus.has_devices());
    assert_eq!(bus.iter().copied().collect::<Vec<u8>>(), vec![3, 5, 7]);
    let empty: PCIeBus<u8> = PCIeBus::new(Vec::new());
    assert!(!empty.has_devices());
    let express = pcie::PCIeBus::new(vec![1u16, 2]);
    assert!(express.is_valid());
    assert_eq!(express.iter_devices().count(), 2);
    assert!(!pcie::PCIeBus::<u16>::new(Vec::new()).is_valid());
}

#[test]
fn capability_list_walk() {
    let mut walk = PCICapablitiesIterator::new(0x40);
    assert_eq!(walk.offset(), 0x40);
    assert_eq!(walk.advance(0x0000_5005), Some(PCICapablities::MSI));
    assert_eq!(walk.offset(), 0x50);
    assert_eq!(walk.advance(0x0000_0010), Some(PCICapablities::PCIE));
    assert_eq!(walk.offset(), 0);
    assert_eq!(walk.advance(0x1234_5678), None);
    assert_eq!(walk.offset(), 0);
}

#[test]
fn capability_ids() {
    assert_eq!(PCICapablities::from_id(0x11), PCICapablities::MSIX);
    assert_eq!(PCICapablities::from_id(0x0), PCICapablities::Reserved);
    assert_eq!(PCICapablities::from_id(0x12), PCICapablities::Reserved);
    assert_eq!(PCICapablities::from_id(0xFE), PCICapablities::Reserved);
    assert_eq!(PCICapablities::from_id(0xFF), PCICapablities::NotImplemented);
}

#[test]
fn standard_register_numbers() {
    assert_eq!(StandardRegister::Register0.index(), 0);
    assert_eq!(StandardRegister::Register5.index(), 5);
}

#[test]
fn mmio_window_offsets() {
    let window = MMIO::from_raw_parts(0x1000, 0x100);
    assert_eq!(window.mapped_addr(), 0x1000);
    assert_eq!(window.offset(0x10, 4, 4), Some(0x1010));
    assert_eq!(window.offset(0x12, 4, 4), None);
    assert_eq!(window.offset(0xFC, 4, 4), None);
    assert_eq!(window.offset(0xF8, 4, 4), Some(0x10F8));
    assert_eq!(window.offset(0x200, 1, 1), None);
}

#[test]
fn interrupt_registers() {
    assert_eq!(interrupt_line_from(0xFF), None);
    assert_eq!(interrupt_line_from(11), Some(11));
    assert_eq!(interrupt_pin_from(0), None);
    assert_eq!(interrupt_pin_from(1), Some(1));
}
