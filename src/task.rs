//! Scheduling priorities and the page permissions of loaded program segments.

use crate::bits::u32_bit;
use vstd::prelude::*;

verus! {

/// Bit of a segment's flags that marks it executable.
pub const PT_FLAG_EXEC_BIT: usize = 0;
/// Bit of a segment's flags that marks it writable.
pub const PT_FLAG_WRITE_BIT: usize = 1;

/// How urgently a task is scheduled, lowest first.
#[derive(Debug, Clone, Copy, PartialEq, Eq, PartialOrd, Ord, Structural)]
pub enum Priority {
    Idle,
    Low,
    Normal,
    High,
    Critical,
}

/// The access a mapping of user memory allows.
#[derive(Debug, Clone, Copy, PartialEq, Eq, Structural)]
pub enum MmapPermissions {
    ReadOnly,
    ReadWrite,
    ReadExecute,
}

/// The segment's flags mark it writable.
pub open spec fn segment_writable(segment_ty: u32) -> bool {
    segment_ty & 2u32 != 0
}

/// The segment's flags mark it executable.
pub open spec fn segment_executable(segment_ty: u32) -> bool {
    segment_ty & 1u32 != 0
}

/// The permissions a loaded segment is mapped with. A segment may not be both
/// writable and executable.
pub fn segment_to_mmap_permissions(segment_ty: u32) -> (r: MmapPermissions)
    requires
        !(segment_writable(segment_ty) && segment_executable(segment_ty)),
    ensures
        r == if segment_writable(segment_ty) {
            MmapPermissions::ReadWrite
        } else if segment_executable(segment_ty) {
            MmapPermissions::ReadExecute
        } else {
            MmapPermissions::ReadOnly
        },
{
    let write = u32_bit(segment_ty, PT_FLAG_WRITE_BIT);
    let exec = u32_bit(segment_ty, PT_FLAG_EXEC_BIT);
    assert(segment_ty & (1u32 << 1u32) == segment_ty & 2u32) by (bit_vector);
    assert(segment_ty & (1u32 << 0u32) == segment_ty & 1u32) by (bit_vector);
    if write {
        MmapPermissions::ReadWrite
    } else if exec {
        MmapPermissions::ReadExecute
    } else {
        MmapPermissions::ReadOnly
    }
}

} // verus!
