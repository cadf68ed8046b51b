//! PCI buses: the devices found on a bus, and the capability list of a device.

use crate::bits::u32_bits;
use vstd::prelude::*;
use vstd::std_specs::vec::spec_into_iter_borrowed;

verus! {

/// Device slots on one bus.
pub const DEVICES_PER_BUS: u64 = 32;

/// Bits between the configuration spaces of neighbouring device slots.
pub const DEVICE_SHIFT: u64 = 15;

/// The physical address of the configuration space of slot `device_index`
/// on the bus whose configuration space starts at `base`.
pub fn device_address(base: u64, device_index: u64) -> (r: u64)
    requires
        device_index < DEVICES_PER_BUS,
        base + (DEVICES_PER_BUS << DEVICE_SHIFT) <= u64::MAX,
    ensures
        r == base + device_index * 0x8000,
{
    assert(device_index << 15u64 == device_index * 0x8000) by (bit_vector)
        requires device_index < 32;
    assert(32u64 << 15u64 == 0x100000) by (bit_vector);
    base + (device_index << DEVICE_SHIFT)
}

/// A vendor id read from a slot names a device unless it is all zeros or
/// all ones.
pub fn is_present_vendor(vendor_id: u16) -> (r: bool)
    ensures
        r == (vendor_id != 0 && vendor_id != 0xffff),
{
    vendor_id != u16::MIN && vendor_id != u16::MAX
}

/// The devices found on one PCI bus.
#[derive(Debug)]
pub struct PCIeBus<D> {
    devices: Vec<D>,
}

impl<D> PCIeBus<D> {
    /// The devices, in slot order.
    pub closed spec fn view(&self) -> Seq<D> {
        self.devices@
    }

    /// The vector that holds the devices.
    pub closed spec fn device_vec(&self) -> &Vec<D> {
        &self.devices
    }

    /// A bus holding the devices found on it, in slot order.
    pub fn new(devices: Vec<D>) -> (r: PCIeBus<D>)
        ensures
            r@ == devices@,
    {
        PCIeBus { devices }
    }

    /// Whether any device was found.
    pub fn has_devices(&self) -> (r: bool)
        ensures
            r == (self@.len() > 0),
    {
        self.devices.len() > 0
    }

    /// An iterator over the devices, in slot order.
    pub fn iter(&self) -> (r: std::slice::Iter<'_, D>)
        ensures
            self.device_vec()@ == self@,
            r == spec_into_iter_borrowed(self.device_vec()),
    {
        (&self.devices).into_iter()
    }
}

/// The capabilities a PCI device can list.
#[derive(Debug, Clone, Copy, PartialEq, Eq, Structural)]
pub enum PCICapablities {
    /// PCI Power Management Interface
    PWMI,
    /// Accelerated Graphics Port
    AGP,
    /// Vital Product Data
    VPD,
    /// Slot Identification
    SIDENT,
    /// Message Signaled Interrupts
    MSI,
    /// CompactPCI Hot Swap
    CPCIHS,
    /// PCI-X
    PCIX,
    /// HyperTransport
    HYTPT,
    /// Vendor Specific
    VENDOR,
    /// Debug Port
    DEBUG,
    /// CompactPCI Central Resource Control
    CPCICPC,
    /// PCI Hot-Plug
    HOTPLG,
    /// PCI Bridge Subsystem Vendor ID
    SSYSVENDID,
    /// AGP 8x
    AGP8X,
    /// Secure Device
    SECURE,
    /// PCI Express
    PCIE,
    /// Message Signaled Interrupt Extension
    MSIX,
    Reserved,
    NotImplemented,
}

/// The capability with id `id`: ids 1 to 0x11 name one, 0 and 0x12 to 0xfe
/// are reserved, and any other is not implemented.
pub open spec fn capability_of(id: u32) -> PCICapablities {
    if id == 0x1 {
        PCICapablities::PWMI
    } else if id == 0x2 {
        PCICapablities::AGP
    } else if id == 0x3 {
        PCICapablities::VPD
    } else if id == 0x4 {
        PCICapablities::SIDENT
    } else if id == 0x5 {
        PCICapablities::MSI
    } else if id == 0x6 {
        PCICapablities::CPCIHS
    } else if id == 0x7 {
        PCICapablities::PCIX
    } else if id == 0x8 {
        PCICapablities::HYTPT
    } else if id == 0x9 {
        PCICapablities::VENDOR
    } else if id == 0xA {
        PCICapablities::DEBUG
    } else if id == 0xB {
        PCICapablities::CPCICPC
    } else if id == 0xC {
        PCICapablities::HOTPLG
    } else if id == 0xD {
        PCICapablities::SSYSVENDID
    } else if id == 0xE {
        PCICapablities::AGP8X
    } else if id == 0xF {
        PCICapablities::SECURE
    } else if id == 0x10 {
        PCICapablities::PCIE
    } else if id == 0x11 {
        PCICapablities::MSIX
    } else if id == 0x0 || (0x12 <= id && id < 0xFF) {
        PCICapablities::Reserved
    } else {
        PCICapablities::NotImplemented
    }
}

impl PCICapablities {
    /// Decodes a capability id.
    pub fn from_id(id: u32) -> (r: PCICapablities)
        ensures
            r == capability_of(id),
    {
        match id {
            0x1 => PCICapablities::PWMI,
            0x2 => PCICapablities::AGP,
            0x3 => PCICapablities::VPD,
            0x4 => PCICapablities::SIDENT,
            0x5 => PCICapablities::MSI,
            0x6 => PCICapablities::CPCIHS,
            0x7 => PCICapablities::PCIX,
            0x8 => PCICapablities::HYTPT,
            0x9 => PCICapablities::VENDOR,
            0xA => PCICapablities::DEBUG,
            0xB => PCICapablities::CPCICPC,
            0xC => PCICapablities::HOTPLG,
            0xD => PCICapablities::SSYSVENDID,
            0xE => PCICapablities::AGP8X,
            0xF => PCICapablities::SECURE,
            0x10 => PCICapablities::PCIE,
            0x11 => PCICapablities::MSIX,
            _ => {
                if id == 0x0 || (0x12 <= id && id < 0xFF) {
                    PCICapablities::Reserved
                } else {
                    PCICapablities::NotImplemented
                }
            },
        }
    }
}

/// A walk along a device's capability list. The caller reads the 32-bit
/// register at `offset()` and hands it to `advance`, until the offset is zero.
#[derive(Debug, Clone, Copy)]
pub struct PCICapablitiesIterator {
    offset: u8,
}

impl PCICapablitiesIterator {
    /// The configuration-space offset of the next capability register; zero
    /// ends the list.
    pub closed spec fn next_offset(&self) -> u8 {
        self.offset
    }

    /// A walk starting at the capability register at `offset`.
    pub fn new(offset: u8) -> (r: PCICapablitiesIterator)
        ensures
            r.next_offset() == offset,
    {
        PCICapablitiesIterator { offset }
    }

    /// The offset of the register to read next.
    pub fn offset(&self) -> (r: u8)
        ensures
            r == self.next_offset(),
    {
        self.offset
    }

    /// Takes the capability register read at the current offset: returns the
    /// capability its low byte names and moves on to the offset in its second
    /// byte. At the end of the list, returns `None` and stays there.
    pub fn advance(&mut self, cap_reg: u32) -> (r: Option<PCICapablities>)
        ensures
            old(self).next_offset() == 0 ==> r is None && final(self).next_offset() == 0,
            old(self).next_offset() != 0 ==> r == Some(capability_of(cap_reg & 0xff)),
            old(self).next_offset() != 0 ==> final(self).next_offset() == ((cap_reg >> 8u32) & 0xff) as u8,
    {
        if self.offset > 0 {
            let next = u32_bits(cap_reg, 8, 16);
            let id = u32_bits(cap_reg, 0, 8);
            assert(((1u32 << 8u32) - 1) as u32 == 0xffu32) by (bit_vector);
            assert((cap_reg >> 0u32) & 0xffu32 == cap_reg & 0xffu32) by (bit_vector);
            assert(next <= 0xff) by (bit_vector)
                requires next == (cap_reg >> 8u32) & 0xffu32;
            self.offset = next as u8;
            Some(PCICapablities::from_id(id))
        } else {
            None
        }
    }
}

/// The base address registers of a standard device.
#[derive(Debug, Clone, Copy, PartialEq, Eq, Structural)]
pub enum StandardRegister {
    Register0,
    Register1,
    Register2,
    Register3,
    Register4,
    Register5,
}

impl StandardRegister {
    /// The register's number.
    pub fn index(self) -> (r: usize)
        ensures
            r < 6,
            r == match self {
                StandardRegister::Register0 => 0usize,
                StandardRegister::Register1 => 1,
                StandardRegister::Register2 => 2,
                StandardRegister::Register3 => 3,
                StandardRegister::Register4 => 4,
                StandardRegister::Register5 => 5,
            },
    {
        match self {
            StandardRegister::Register0 => 0,
            StandardRegister::Register1 => 1,
            StandardRegister::Register2 => 2,
            StandardRegister::Register3 => 3,
            StandardRegister::Register4 => 4,
            StandardRegister::Register5 => 5,
        }
    }
}

/// The interrupt line register names no line when it reads 0xff.
pub fn interrupt_line_from(raw: u8) -> (r: Option<u8>)
    ensures
        r == if raw == 0xff {
            None::<u8>
        } else {
            Some(raw)
        },
{
    if raw == 0xff {
        None
    } else {
        Some(raw)
    }
}

/// The interrupt pin register names no pin when it reads zero.
pub fn interrupt_pin_from(raw: u8) -> (r: Option<u8>)
    ensures
        r == if raw == 0 {
            None::<u8>
        } else {
            Some(raw)
        },
{
    if raw == 0 {
        None
    } else {
        Some(raw)
    }
}

} // verus!
