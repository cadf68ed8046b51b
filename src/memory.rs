//! Allocation helpers of fixed alignment, and stacks kept inline.

use vstd::prelude::*;

verus! {

/// Requests through this allocator are aligned to at least `ALIGN` bytes.
#[derive(Debug, Clone, Copy)]
pub struct AlignedAllocator<const ALIGN: usize>;

impl<const ALIGN: usize> AlignedAllocator<ALIGN> {
    /// The alignment every request is raised to.
    pub fn alignment(&self) -> (r: usize)
        ensures
            r == ALIGN,
    {
        ALIGN
    }

    /// The size and alignment a request of `size` bytes aligned to `align`
    /// is served with: the alignment is raised to `ALIGN`. `None` when the
    /// size, rounded up to that alignment, would pass `isize::MAX`.
    pub fn aligned_layout(&self, size: usize, align: usize) -> (r: Option<(usize, usize)>)
        requires
            align > 0,
            ALIGN > 0,
            size <= isize::MAX,
        ensures
            ({
                let a = if align >= ALIGN {
                    align
                } else {
                    ALIGN
                };
                r == if size + a - 1 <= isize::MAX {
                    Some((size, a))
                } else {
                    None::<(usize, usize)>
                }
            }),
    {
        let a = if align >= ALIGN {
            align
        } else {
            ALIGN
        };
        if a - 1 > (isize::MAX as usize) - size {
            None
        } else {
            Some((size, a))
        }
    }
}

/// An allocator whose requests are page aligned.
pub fn page_aligned_allocator() -> (r: AlignedAllocator<4096>) {
    AlignedAllocator::<4096>
}

/// An allocator whose requests are aligned as a stack must be.
pub fn stack_aligned_allocator() -> (r: AlignedAllocator<16>) {
    AlignedAllocator::<16>
}

/// A zeroed region of `SIZE` bytes to run a stack in.
#[derive(Debug)]
pub struct Stack<const SIZE: usize> {
    bytes: Vec<u8>,
}

impl<const SIZE: usize> Stack<SIZE> {
    /// The stack's bytes.
    pub closed spec fn view(&self) -> Seq<u8> {
        self.bytes@
    }

    /// A stack of `SIZE` zero bytes.
    pub fn new() -> (r: Stack<SIZE>)
        ensures
            r@.len() == SIZE,
            forall|i: int| 0 <= i < SIZE ==> #[trigger] r@[i] == 0,
    {
        let mut bytes: Vec<u8> = Vec::new();
        while bytes.len() < SIZE
            invariant
                bytes@.len() <= SIZE,
                forall|i: int| 0 <= i < bytes@.len() ==> #[trigger] bytes@[i] == 0,
            decreases SIZE - bytes@.len(),
        {
            bytes.push(0);
        }
        Stack { bytes }
    }

    /// The number of bytes.
    pub fn len(&self) -> (r: usize)
        ensures
            r == self@.len(),
    {
        self.bytes.len()
    }
}

/// Why a range of frames could not be made device memory.
#[derive(Debug, Clone, Copy, PartialEq, Eq, Structural)]
pub enum MMIOError {
    FramesNotMMIO,
    FailedFrameTypeModify,
}

/// A window of device memory mapped at a virtual address.
#[derive(Debug)]
pub struct MMIO {
    ptr: usize,
    len: usize,
}

impl MMIO {
    /// The virtual address the window starts at.
    pub closed spec fn base(&self) -> usize {
        self.ptr
    }

    /// The window's length in bytes.
    pub closed spec fn size(&self) -> usize {
        self.len
    }

    /// The window lies below the top of the address space.
    pub closed spec fn wf(&self) -> bool {
        self.ptr + self.len <= usize::MAX
    }

    /// The window of `len` bytes mapped at `ptr`.
    pub fn from_raw_parts(ptr: usize, len: usize) -> (r: MMIO)
        requires
            ptr + len <= usize::MAX,
        ensures
            r.wf(),
            r.base() == ptr,
            r.size() == len,
    {
        MMIO { ptr, len }
    }

    /// The virtual address the window starts at.
    pub fn mapped_addr(&self) -> (r: usize)
        ensures
            r == self.base(),
    {
        self.ptr
    }

    /// The address of a `size`-byte value at `offset` into the window, when
    /// the value ends strictly inside the window and its address is a
    /// multiple of `align`.
    pub fn offset(&self, offset: usize, size: usize, align: usize) -> (r: Option<usize>)
        requires
            self.wf(),
            align > 0,
        ensures
            r == if offset + size < self.size() && (self.base() + offset) % align as int == 0 {
                Some((self.base() + offset) as usize)
            } else {
                None::<usize>
            },
    {
        if offset < self.len && size < self.len - offset {
            let ptr = self.ptr + offset;
            if ptr % align == 0 {
                return Some(ptr);
            }
        }
        None
    }
}

} // verus!
