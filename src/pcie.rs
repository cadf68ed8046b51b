//! A PCI Express bus, configured only when devices were found on it.

use vstd::prelude::*;
use vstd::std_specs::vec::spec_into_iter_borrowed;

verus! {

/// The devices of a PCI Express bus; a bus without devices is not configured.
#[derive(Debug)]
pub struct PCIeBus<D> {
    devices: Option<Vec<D>>,
}

impl<D> PCIeBus<D> {
    /// The devices, when the bus is configured.
    pub closed spec fn view(&self) -> Option<Seq<D>> {
        match &self.devices {
            Some(v) => Some(v@),
            None => None,
        }
    }

    /// The vector that holds the devices of a configured bus.
    pub closed spec fn device_vec(&self) -> &Vec<D> {
        &self.devices->Some_0
    }

    /// A bus holding the devices found on it, in slot order; with none it
    /// is not configured.
    pub fn new(devices: Vec<D>) -> (r: PCIeBus<D>)
        ensures
            r@ == if devices@.len() > 0 {
                Some(devices@)
            } else {
                None::<Seq<D>>
            },
    {
        if devices.len() > 0 {
            PCIeBus { devices: Some(devices) }
        } else {
            PCIeBus { devices: None }
        }
    }

    /// Whether the bus is configured.
    pub fn is_valid(&self) -> (r: bool)
        ensures
            r == self@ is Some,
    {
        self.devices.is_some()
    }

    /// An iterator over the devices of a configured bus, in slot order.
    pub fn iter_devices(&self) -> (r: std::slice::Iter<'_, D>)
        requires
            self@ is Some,
        ensures
            self@ == Some(self.device_vec()@),
            r == spec_into_iter_borrowed(self.device_vec()),
    {
        let devices: &Vec<D> = self.devices.as_ref().unwrap();
        devices.into_iter()
    }
}

} // verus!
