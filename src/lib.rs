//! Physical-memory bookkeeping for a kernel: a table with one packed state
//! cell per physical frame, a frame allocator over that table, a small-object
//! slab layer on top of it and a bump allocator for bootstrap arenas.
//! A few hardware-facing helpers (PCI buses, task permissions, stacks) share
//! the crate.

mod bits;

pub mod bump;
pub mod frame;
pub mod memory;
pub mod memory_map;
pub mod pci;
pub mod pcie;
pub mod pmm;
pub mod slab;
pub mod task;
