//! The small-object layer: fixed-size slot classes carved out of whole frames.

use crate::bits::{u64_bit, u64_with_bit};
use crate::frame::Frame;
use crate::pmm::{frame_alignment, lemma_claims_same_table, lemma_frame_address, PAGE_SIZE};
use vstd::prelude::*;

verus! {

/// The error of every allocation primitive: the request could not be met.
#[derive(Debug, Clone, Copy, PartialEq, Eq, Structural)]
pub struct AllocError;

/// One frame cut into equal slots, with a bitmap of the slots in use: bit `i`
/// stands for the slot at `base + i * slot_size`. `frame` is the number of
/// the table frame the slab lives in, and `base` its direct-map address.
#[derive(Debug, Clone, Copy)]
pub struct Slab {
    pub base: usize,
    pub frame: usize,
    pub used: u64,
}

/// All slabs of one slot size.
#[derive(Debug)]
pub struct SlabClass {
    pub slot_size: usize,
    pub slabs: Vec<Slab>,
}

/// The frame allocator over the frame table, with the slab classes above it.
#[derive(Debug)]
pub struct SlabAllocator {
    pub(crate) classes: Vec<SlabClass>,
    pub(crate) phys_mapped_address: usize,
    pub(crate) table: Vec<Frame>,
}

/// Number of slab classes.
pub const CLASS_COUNT: usize = 4;

/// Slot size of slab class `class`: 64, 128, 256 and 512 bytes.
pub open spec fn class_slot_size(class: int) -> int {
    if class == 0 {
        64
    } else if class == 1 {
        128
    } else if class == 2 {
        256
    } else {
        512
    }
}

impl SlabClass {
    /// The slot size is the one of class `class`, and every slab's frame lies
    /// below the top of the address space.
    pub open spec fn wf(&self, class: int) -> bool {
        &&& self.slot_size == class_slot_size(class)
        &&& forall|i: int|
            #![trigger self.slabs@[i]]
            0 <= i < self.slabs@.len() ==> self.slabs@[i].base + PAGE_SIZE <= usize::MAX
    }
}

impl SlabAllocator {
    /// The slab classes, smallest slot size first.
    pub open(crate) spec fn slab_classes(&self) -> Seq<SlabClass> {
        self.classes@
    }

    /// The slabs of class `class`.
    pub open spec fn class_slabs(&self, class: int) -> Seq<Slab> {
        self.slab_classes()[class].slabs@
    }

    /// One class per slot size, in order.
    pub open(crate) spec fn classes_wf(&self) -> bool {
        &&& self.slab_classes().len() == CLASS_COUNT
        &&& forall|c: int| 0 <= c < CLASS_COUNT ==> #[trigger] self.slab_classes()[c].wf(c)
    }

    /// No slab has been cut yet.
    pub open spec fn slabs_empty(&self) -> bool {
        forall|c: int| 0 <= c < self.slab_classes().len() ==> #[trigger] self.slab_classes()[c].slabs@.len() == 0
    }

    /// Every slab lives, through the direct map, in a locked frame of the
    /// table, and no two slabs share a frame.
    pub open(crate) spec fn slabs_placed(&self) -> bool {
        &&& forall|c: int, k: int|
            #![trigger self.class_slabs(c)[k]]
            0 <= c < CLASS_COUNT && 0 <= k < self.class_slabs(c).len() ==> self.class_slabs(c)[k].frame
                < self.frame_count() && self.class_slabs(c)[k].base == self.hhdm() + self.class_slabs(
                c,
            )[k].frame * PAGE_SIZE && self.is_locked(self.class_slabs(c)[k].frame as int)
        &&& forall|c1: int, k1: int, c2: int, k2: int|
            #![trigger self.class_slabs(c1)[k1], self.class_slabs(c2)[k2]]
            0 <= c1 < CLASS_COUNT && 0 <= k1 < self.class_slabs(c1).len() && 0 <= c2 < CLASS_COUNT && 0
                <= k2 < self.class_slabs(c2).len() && (c1 != c2 || k1 != k2) ==> self.class_slabs(
                c1,
            )[k1].frame != self.class_slabs(c2)[k2].frame
    }

    /// Frame `i` holds a slab.
    pub open spec fn is_slab_frame(&self, i: int) -> bool {
        exists|c: int, k: int|
            #![trigger self.class_slabs(c)[k]]
            0 <= c < CLASS_COUNT && 0 <= k < self.class_slabs(c).len() && self.class_slabs(c)[k].frame == i
    }

    /// The allocator's invariant.
    pub open(crate) spec fn wf(&self) -> bool {
        &&& self.table_wf()
        &&& self.classes_wf()
        &&& self.slabs_placed()
    }

    /// The class and position of the slab that frame `index` holds, if any.
    pub(crate) fn find_slab(&self, index: usize) -> (r: Option<(usize, usize)>)
        requires
            self.classes_wf(),
        ensures
            r is None <==> !self.is_slab_frame(index as int),
            r matches Some((c, k)) ==> c < CLASS_COUNT && k < self.class_slabs(c as int).len()
                && self.class_slabs(c as int)[k as int].frame == index,
    {
        let mut c: usize = 0;
        while c < CLASS_COUNT
            invariant
                c <= CLASS_COUNT,
                self.classes_wf(),
                forall|d: int, k: int|
                    #![trigger self.class_slabs(d)[k]]
                    0 <= d < c && 0 <= k < self.class_slabs(d).len() ==> self.class_slabs(d)[k].frame != index,
            decreases CLASS_COUNT - c,
        {
            let mut k: usize = 0;
            while k < self.classes[c].slabs.len()
                invariant
                    c < CLASS_COUNT,
                    self.classes_wf(),
                    k <= self.class_slabs(c as int).len(),
                    forall|j: int|
                        #![trigger self.class_slabs(c as int)[j]]
                        0 <= j < k ==> self.class_slabs(c as int)[j].frame != index,
                decreases self.class_slabs(c as int).len() - k,
            {
                if self.classes[c].slabs[k].frame == index {
                    assert(self.class_slabs(c as int)[k as int].frame == index);
                    return Some((c, k));
                }
                k += 1;
            }
            c += 1;
        }
        None
    }

    /// Whether frame `index` holds a slab.
    pub(crate) fn holds_slab(&self, index: usize) -> (r: bool)
        requires
            self.classes_wf(),
        ensures
            r == self.is_slab_frame(index as int),
    {
        match self.find_slab(index) {
            Some(_) => true,
            None => false,
        }
    }

    /// Drops slab `k` of class `class`.
    pub(crate) fn forget_slab(&mut self, class: usize, k: usize)
        requires
            old(self).classes_wf(),
            class < CLASS_COUNT,
            k < old(self).class_slabs(class as int).len(),
        ensures
            final(self).classes_wf(),
            final(self).frames() == old(self).frames(),
            final(self).hhdm() == old(self).hhdm(),
            final(self).class_slabs(class as int) == old(self).class_slabs(class as int).remove(k as int),
            forall|d: int|
                0 <= d < CLASS_COUNT && d != class ==> #[trigger] final(self).class_slabs(d) == old(self).class_slabs(
                    d,
                ),
    {
        assert(self.slab_classes()[class as int].wf(class as int));
        let _ = self.classes[class].slabs.remove(k);
        proof {
            let before = old(self).class_slabs(class as int);
            let after = self.class_slabs(class as int);
            assert forall|j: int| #![trigger after[j]] 0 <= j < after.len() implies after[j].base + PAGE_SIZE
                <= usize::MAX by {
                if j < k {
                    assert(after[j] == before[j]);
                } else {
                    assert(after[j] == before[j + 1]);
                }
            }
            assert forall|d: int| 0 <= d < CLASS_COUNT implies #[trigger] self.slab_classes()[d].wf(d) by {
                if d != class {
                    assert(self.slab_classes()[d] == old(self).slab_classes()[d]);
                }
            }
        }
    }
}

/// A table change that keeps every slab's frame locked keeps the invariant.
pub(crate) proof fn lemma_slabs_stay_placed(a: &SlabAllocator, b: &SlabAllocator)
    requires
        a.wf(),
        b.table_wf(),
        b.slab_classes() == a.slab_classes(),
        b.hhdm() == a.hhdm(),
        b.frame_count() == a.frame_count(),
        forall|i: int| 0 <= i < a.frame_count() && a.is_slab_frame(i) ==> #[trigger] b.is_locked(i),
    ensures
        b.wf(),
{
    assert forall|c: int, k: int|
        #![trigger b.class_slabs(c)[k]]
        0 <= c < CLASS_COUNT && 0 <= k < b.class_slabs(c).len() implies b.class_slabs(c)[k].frame
            < b.frame_count() && b.class_slabs(c)[k].base == b.hhdm() + b.class_slabs(c)[k].frame * PAGE_SIZE
            && b.is_locked(b.class_slabs(c)[k].frame as int) by {
        assert(a.class_slabs(c)[k] == b.class_slabs(c)[k]);
        assert(a.is_slab_frame(a.class_slabs(c)[k].frame as int));
    }
    assert forall|c1: int, k1: int, c2: int, k2: int|
        #![trigger b.class_slabs(c1)[k1], b.class_slabs(c2)[k2]]
        0 <= c1 < CLASS_COUNT && 0 <= k1 < b.class_slabs(c1).len() && 0 <= c2 < CLASS_COUNT && 0 <= k2
            < b.class_slabs(c2).len() && (c1 != c2 || k1 != k2) implies b.class_slabs(c1)[k1].frame
        != b.class_slabs(c2)[k2].frame by {
        assert(a.class_slabs(c1)[k1] == b.class_slabs(c1)[k1]);
        assert(a.class_slabs(c2)[k2] == b.class_slabs(c2)[k2]);
    }
}

/// Which frames hold slabs depends on the slab classes alone.
pub proof fn lemma_slab_frames_same(a: &SlabAllocator, b: &SlabAllocator)
    requires
        a.slab_classes() == b.slab_classes(),
    ensures
        forall|i: int| #[trigger] a.is_slab_frame(i) == b.is_slab_frame(i),
{
    assert forall|i: int| #[trigger] a.is_slab_frame(i) == b.is_slab_frame(i) by {
        if a.is_slab_frame(i) {
            let (c, k) = choose|c: int, k: int|
                #![trigger a.class_slabs(c)[k]]
                0 <= c < CLASS_COUNT && 0 <= k < a.class_slabs(c).len() && a.class_slabs(c)[k].frame == i;
            assert(b.class_slabs(c)[k] == a.class_slabs(c)[k]);
        }
        if b.is_slab_frame(i) {
            let (c, k) = choose|c: int, k: int|
                #![trigger b.class_slabs(c)[k]]
                0 <= c < CLASS_COUNT && 0 <= k < b.class_slabs(c).len() && b.class_slabs(c)[k].frame == i;
            assert(b.class_slabs(c)[k] == a.class_slabs(c)[k]);
        }
    }
}

/// A frame that holds a slab is locked.
pub(crate) proof fn lemma_slab_frame_locked(a: &SlabAllocator, i: int)
    requires
        a.wf(),
        a.is_slab_frame(i),
    ensures
        0 <= i < a.frame_count(),
        a.is_locked(i),
{
    let (c, k) = choose|c: int, k: int|
        #![trigger a.class_slabs(c)[k]]
        0 <= c < CLASS_COUNT && 0 <= k < a.class_slabs(c).len() && a.class_slabs(c)[k].frame == i;
    assert(a.class_slabs(c)[k].frame == i);
}

/// Claiming frames keeps the invariant.
pub(crate) proof fn lemma_wf_after_claims(a: &SlabAllocator, b: &SlabAllocator, start: int, count: int)
    requires
        a.wf(),
        b.table_wf(),
        a.claims(b, start, count),
        b.slab_classes() == a.slab_classes(),
        b.hhdm() == a.hhdm(),
    ensures
        b.wf(),
{
    assert forall|i: int| 0 <= i < a.frame_count() && a.is_slab_frame(i) implies #[trigger] b.is_locked(i) by {
        lemma_slab_frame_locked(a, i);
    }
    lemma_slabs_stay_placed(a, b);
}

/// A change that keeps every frame's `locked` bit keeps the invariant.
pub(crate) proof fn lemma_wf_after_same(a: &SlabAllocator, b: &SlabAllocator)
    requires
        a.wf(),
        b.table_wf(),
        b.same_frames(a),
        b.slab_classes() == a.slab_classes(),
        b.hhdm() == a.hhdm(),
    ensures
        b.wf(),
{
    assert forall|i: int| 0 <= i < a.frame_count() && a.is_slab_frame(i) implies #[trigger] b.is_locked(i) by {
        lemma_slab_frame_locked(a, i);
        assert(b.is_locked(i) == a.is_locked(i));
    }
    lemma_slabs_stay_placed(a, b);
}

/// Releasing a frame that holds no slab keeps the invariant.
pub(crate) proof fn lemma_wf_after_release(a: &SlabAllocator, b: &SlabAllocator, index: int)
    requires
        a.wf(),
        b.table_wf(),
        a.releases(b, index),
        !a.is_slab_frame(index),
        b.slab_classes() == a.slab_classes(),
        b.hhdm() == a.hhdm(),
    ensures
        b.wf(),
{
    assert forall|i: int| 0 <= i < a.frame_count() && a.is_slab_frame(i) implies #[trigger] b.is_locked(i) by {
        lemma_slab_frame_locked(a, i);
    }
    lemma_slabs_stay_placed(a, b);
}

/// Releasing the frame of slab `k` of class `class`, and dropping that slab,
/// keeps the invariant.
pub(crate) proof fn lemma_wf_after_slab_release(a: &SlabAllocator, b: &SlabAllocator, index: int, class: int, k: int)
    requires
        a.wf(),
        b.table_wf(),
        a.releases(b, index),
        b.classes_wf(),
        b.hhdm() == a.hhdm(),
        0 <= class < CLASS_COUNT,
        0 <= k < a.class_slabs(class).len(),
        a.class_slabs(class)[k].frame == index,
        b.class_slabs(class) == a.class_slabs(class).remove(k),
        forall|d: int| 0 <= d < CLASS_COUNT && d != class ==> #[trigger] b.class_slabs(d) == a.class_slabs(d),
    ensures
        b.wf(),
{
    assert forall|c: int, j: int|
        #![trigger b.class_slabs(c)[j]]
        0 <= c < CLASS_COUNT && 0 <= j < b.class_slabs(c).len() implies b.class_slabs(c)[j].frame
            < b.frame_count() && b.class_slabs(c)[j].base == b.hhdm() + b.class_slabs(c)[j].frame * PAGE_SIZE
            && b.is_locked(b.class_slabs(c)[j].frame as int) by {
        let j0 = if c == class && j >= k { j + 1 } else { j };
        assert(b.class_slabs(c)[j] == a.class_slabs(c)[j0]);
        assert(!(c == class && j0 == k));
        assert(a.class_slabs(c)[j0].frame != a.class_slabs(class)[k].frame);
        assert(a.is_locked(a.class_slabs(c)[j0].frame as int));
    }
    assert forall|c1: int, k1: int, c2: int, k2: int|
        #![trigger b.class_slabs(c1)[k1], b.class_slabs(c2)[k2]]
        0 <= c1 < CLASS_COUNT && 0 <= k1 < b.class_slabs(c1).len() && 0 <= c2 < CLASS_COUNT && 0 <= k2
            < b.class_slabs(c2).len() && (c1 != c2 || k1 != k2) implies b.class_slabs(c1)[k1].frame
        != b.class_slabs(c2)[k2].frame by {
        let j1 = if c1 == class && k1 >= k { k1 + 1 } else { k1 };
        let j2 = if c2 == class && k2 >= k { k2 + 1 } else { k2 };
        assert(b.class_slabs(c1)[k1] == a.class_slabs(c1)[j1]);
        assert(b.class_slabs(c2)[k2] == a.class_slabs(c2)[j2]);
        assert(a.class_slabs(c1)[j1].frame != a.class_slabs(c2)[j2].frame);
    }
}

/// The four classes, without slabs.
pub(crate) fn empty_classes() -> (r: Vec<SlabClass>)
    ensures
        r@.len() == CLASS_COUNT,
        forall|c: int|
            #![trigger r@[c]]
            0 <= c < CLASS_COUNT ==> r@[c].wf(c) && r@[c].slabs@.len() == 0,
{
    let mut r: Vec<SlabClass> = Vec::new();
    r.push(SlabClass { slot_size: 64, slabs: Vec::new() });
    r.push(SlabClass { slot_size: 128, slabs: Vec::new() });
    r.push(SlabClass { slot_size: 256, slabs: Vec::new() });
    r.push(SlabClass { slot_size: 512, slabs: Vec::new() });
    r
}

/// Largest request served from a slab class.
pub const MAX_SLOT_SIZE: usize = 512;

/// Where a request of a given size and alignment is served from.
#[derive(Debug, Clone, Copy, PartialEq, Eq, Structural)]
pub enum AllocRoute {
    /// A slot of the slab class with this slot size.
    Slab(usize),
    /// One whole frame.
    Frame,
    /// This many contiguous frames.
    Frames(usize),
}

/// Whole frames needed for `size` bytes, at least one.
pub open spec fn frames_for(size: int) -> int {
    if size <= PAGE_SIZE {
        1
    } else {
        (size + PAGE_SIZE - 1) / PAGE_SIZE as int
    }
}

/// The smallest slab class whose slot size covers both the size and the
/// alignment; past the largest class one frame, and past one frame a run.
pub open spec fn route_of(size: int, align: int) -> AllocRoute {
    if align <= 64 && size <= 64 {
        AllocRoute::Slab(64)
    } else if align <= 128 && size <= 128 {
        AllocRoute::Slab(128)
    } else if align <= 256 && size <= 256 {
        AllocRoute::Slab(256)
    } else if align <= 512 && size <= 512 {
        AllocRoute::Slab(512)
    } else if align <= PAGE_SIZE && size <= PAGE_SIZE {
        AllocRoute::Frame
    } else {
        AllocRoute::Frames(frames_for(size) as usize)
    }
}

/// Chooses where a request of `size` bytes aligned to `align` is served from.
pub fn route(size: usize, align: usize) -> (r: AllocRoute)
    ensures
        r == route_of(size as int, align as int),
{
    if align <= 64 && size <= 64 {
        AllocRoute::Slab(64)
    } else if align <= 128 && size <= 128 {
        AllocRoute::Slab(128)
    } else if align <= 256 && size <= 256 {
        AllocRoute::Slab(256)
    } else if align <= MAX_SLOT_SIZE && size <= MAX_SLOT_SIZE {
        AllocRoute::Slab(512)
    } else if align <= PAGE_SIZE && size <= PAGE_SIZE {
        AllocRoute::Frame
    } else {
        let count = if size <= PAGE_SIZE {
            1
        } else {
            size / PAGE_SIZE + if size % PAGE_SIZE == 0 {
                0
            } else {
                1
            }
        };
        assert(count as int == frames_for(size as int)) by (nonlinear_arith)
            requires
                size > PAGE_SIZE ==> count as int == size as int / 4096 + if size as int % 4096 == 0 {
                    0int
                } else {
                    1int
                },
                size <= PAGE_SIZE ==> count == 1,
                frames_for(size as int) == if size <= PAGE_SIZE {
                    1
                } else {
                    (size + 4095) / 4096
                },
        ;
        AllocRoute::Frames(count)
    }
}

/// The class index of a slot size.
pub open spec fn class_of(slot_size: int) -> int {
    if slot_size == 64 {
        0
    } else if slot_size == 128 {
        1
    } else if slot_size == 256 {
        2
    } else {
        3
    }
}

/// Slot `j` of a bitmap is in use.
pub open spec fn slot_used(used: u64, j: int) -> bool {
    used & (1u64 << j as u64) != 0
}

/// Slots of `slot_size` bytes in one frame.
pub open spec fn slot_count(slot_size: int) -> int {
    PAGE_SIZE as int / slot_size
}

/// `j` is the lowest free slot of the slab.
pub open spec fn lowest_free_slot(slab: Slab, slot_size: int, j: int) -> bool {
    &&& 0 <= j < slot_count(slot_size)
    &&& !slot_used(slab.used, j)
    &&& forall|k: int| 0 <= k < j ==> #[trigger] slot_used(slab.used, k)
}

/// The slab has a free slot.
pub open spec fn has_free_slot(slab: Slab, slot_size: int) -> bool {
    exists|j: int| 0 <= j < slot_count(slot_size) && !#[trigger] slot_used(slab.used, j)
}

/// Going from `slabs` to `after`, the lowest free slot of the first slab
/// with room was taken, and its address is `addr`.
pub open spec fn takes_slot(slabs: Seq<Slab>, after: Seq<Slab>, slot_size: int, addr: int) -> bool {
    exists|i: int, j: int|
        #![trigger slabs[i], slot_used(slabs[i].used, j)]
        0 <= i < slabs.len() && (forall|k: int| 0 <= k < i ==> !#[trigger] has_free_slot(slabs[k], slot_size))
            && lowest_free_slot(slabs[i], slot_size, j) && addr == slabs[i].base + j * slot_size
            && after == slabs.update(i, Slab { base: slabs[i].base, frame: slabs[i].frame, used: slabs[i].used | (1u64 << j as u64) })
}

/// Going from `slabs` to `after`, every slab whose frame holds `addr` had the
/// slot under `addr` marked free.
pub open spec fn releases_slot(slabs: Seq<Slab>, after: Seq<Slab>, slot_size: int, addr: int) -> bool {
    &&& after.len() == slabs.len()
    &&& forall|i: int|
        0 <= i < slabs.len() ==> #[trigger] after[i] == if slabs[i].base <= addr < slabs[i].base
            + PAGE_SIZE {
            Slab {
                base: slabs[i].base,
                frame: slabs[i].frame,
                used: slabs[i].used & !(1u64 << ((addr - slabs[i].base) / slot_size) as u64),
            }
        } else {
            slabs[i]
        }
}

/// The lowest of the first `slots` slots that the bitmap marks free.
fn lowest_free(used: u64, slots: usize) -> (r: Option<usize>)
    requires
        slots <= 64,
    ensures
        r matches Some(j) ==> j < slots && !slot_used(used, j as int) && forall|k: int|
            0 <= k < j ==> #[trigger] slot_used(used, k),
        r is None ==> forall|k: int| 0 <= k < slots ==> #[trigger] slot_used(used, k),
{
    let mut j: usize = 0;
    while j < slots
        invariant
            slots <= 64,
            forall|k: int| 0 <= k < j ==> #[trigger] slot_used(used, k),
        decreases slots - j,
    {
        if !u64_bit(used, j) {
            return Some(j);
        }
        j += 1;
    }
    None
}

impl SlabClass {
    /// The first slab with a free slot, and the lowest free slot in it.
    fn find_slot(&self, Ghost(class): Ghost<int>) -> (r: Option<(usize, usize)>)
        requires
            0 <= class < CLASS_COUNT,
            self.wf(class),
        ensures
            r is Some <==> exists|i: int|
                0 <= i < self.slabs@.len() && #[trigger] has_free_slot(self.slabs@[i], self.slot_size as int),
            r matches Some((i, j)) ==> {
                &&& i < self.slabs@.len()
                &&& forall|k: int| 0 <= k < i ==> !#[trigger] has_free_slot(self.slabs@[k], self.slot_size as int)
                &&& lowest_free_slot(self.slabs@[i as int], self.slot_size as int, j as int)
                &&& j * self.slot_size < PAGE_SIZE
            },
    {
        let slot_size = self.slot_size;
        let slots = PAGE_SIZE / slot_size;
        assert(slots <= 64) by (nonlinear_arith)
            requires
                slots as int == 4096int / slot_size as int,
                slot_size >= 64,
        ;
        let mut i: usize = 0;
        while i < self.slabs.len()
            invariant
                slots <= 64,
                self.wf(class),
                slots as int == slot_count(slot_size as int),
                slot_size == self.slot_size,
                slot_size as int == class_slot_size(class),
                0 <= class < CLASS_COUNT,
                forall|k: int| 0 <= k < i ==> !#[trigger] has_free_slot(self.slabs@[k], slot_size as int),
            decreases self.slabs@.len() - i,
        {
            let slab = self.slabs[i];
            if let Some(j) = lowest_free(slab.used, slots) {
                assert(j * slot_size < PAGE_SIZE) by (nonlinear_arith)
                    requires
                        j < slots,
                        slots as int == PAGE_SIZE as int / slot_size as int,
                        slot_size > 0,
                ;
                assert(has_free_slot(self.slabs@[i as int], slot_size as int));
                return Some((i, j));
            }
            assert(!has_free_slot(slab, slot_size as int));
            i += 1;
        }
        None
    }

    /// Marks slot `j` of slab `i` in use and returns its address.
    fn take_slot(&mut self, i: usize, j: usize, Ghost(class): Ghost<int>) -> (addr: usize)
        requires
            0 <= class < CLASS_COUNT,
            old(self).wf(class),
            i < old(self).slabs@.len(),
            j < 64,
            j * old(self).slot_size < PAGE_SIZE,
        ensures
            final(self).wf(class),
            addr == old(self).slabs@[i as int].base + j * old(self).slot_size,
            final(self).slabs@ == old(self).slabs@.update(
                i as int,
                (Slab {
                    base: old(self).slabs@[i as int].base,
                    frame: old(self).slabs@[i as int].frame,
                    used: old(self).slabs@[i as int].used | (1u64 << j as u64),
                }),
            ),
    {
        let slab = self.slabs[i];
        let used = u64_with_bit(slab.used, j, true);
        self.slabs.set(i, Slab { base: slab.base, frame: slab.frame, used });
        assert(slab.base + PAGE_SIZE <= usize::MAX);
        assert forall|k: int| 0 <= k < self.slabs@.len() implies #[trigger] self.slabs@[k].base
            + PAGE_SIZE <= usize::MAX by {
            assert(self.slabs@[k].base == old(self).slabs@[k].base);
        }
        slab.base + j * self.slot_size
    }

    /// Marks free the slot under `addr` in every slab whose frame holds it.
    fn release_slot(&mut self, addr: usize, Ghost(class): Ghost<int>)
        requires
            0 <= class < CLASS_COUNT,
            old(self).wf(class),
        ensures
            final(self).wf(class),
            final(self).slot_size == old(self).slot_size,
            releases_slot(old(self).slabs@, final(self).slabs@, old(self).slot_size as int, addr as int),
    {
        let slot_size = self.slot_size;
        let mut i: usize = 0;
        while i < self.slabs.len()
            invariant
                self.wf(class),
                self.slot_size == slot_size == old(self).slot_size,
                slot_size as int == class_slot_size(class),
                0 <= class < CLASS_COUNT,
                self.slabs@.len() == old(self).slabs@.len(),
                forall|k: int| i <= k < self.slabs@.len() ==> #[trigger] self.slabs@[k] == old(self).slabs@[k],
                forall|k: int|
                    #![trigger self.slabs@[k]]
                    0 <= k < i ==> self.slabs@[k] == if old(self).slabs@[k].base <= addr < old(self).slabs@[k].base
                        + PAGE_SIZE {
                        Slab {
                            base: old(self).slabs@[k].base,
                            frame: old(self).slabs@[k].frame,
                            used: old(self).slabs@[k].used & !(1u64 << ((addr - old(self).slabs@[k].base)
                                / slot_size as int) as u64),
                        }
                    } else {
                        old(self).slabs@[k]
                    },
            decreases self.slabs@.len() - i,
        {
            let slab = self.slabs[i];
            if slab.base <= addr && addr - slab.base < PAGE_SIZE {
                let bit = (addr - slab.base) / slot_size;
                assert(bit < 64) by (nonlinear_arith)
                    requires
                        bit as int == (addr - slab.base) as int / slot_size as int,
                        addr - slab.base < 4096,
                        slot_size >= 64,
                ;
                let used = u64_with_bit(slab.used, bit, false);
                self.slabs.set(i, Slab { base: slab.base, frame: slab.frame, used });
            }
            i += 1;
        }
    }
}

/// The class index of a slot size of a slab class.
fn class_index(slot_size: usize) -> (c: usize)
    requires
        slot_size == 64 || slot_size == 128 || slot_size == 256 || slot_size == 512,
    ensures
        c == class_of(slot_size as int),
        c < CLASS_COUNT,
        class_slot_size(c as int) == slot_size,
{
    if slot_size == 64 {
        0
    } else if slot_size == 128 {
        1
    } else if slot_size == 256 {
        2
    } else {
        3
    }
}

/// The slab's frame holds `addr`.
pub open spec fn slab_holds(slab: Slab, addr: int) -> bool {
    slab.base <= addr < slab.base + PAGE_SIZE
}

/// The slab with the slot under `addr` marked free.
pub open spec fn freed_slot(slab: Slab, slot_size: int, addr: int) -> Slab {
    Slab {
        base: slab.base,
        frame: slab.frame,
        used: slab.used & !(1u64 << ((addr - slab.base) / slot_size) as u64),
    }
}

/// In a well-formed allocator at most one slab of a class holds an address.
pub proof fn lemma_owner_unique(a: &SlabAllocator, c: int, i: int, j: int, addr: int)
    requires
        a.wf(),
        0 <= c < CLASS_COUNT,
        0 <= i < a.class_slabs(c).len(),
        0 <= j < a.class_slabs(c).len(),
        slab_holds(a.class_slabs(c)[i], addr),
        slab_holds(a.class_slabs(c)[j], addr),
    ensures
        i == j,
{
    if i != j {
        assert(a.class_slabs(c)[i].frame != a.class_slabs(c)[j].frame);
        assert(a.class_slabs(c)[i].base == a.hhdm() + a.class_slabs(c)[i].frame * PAGE_SIZE);
        assert(a.class_slabs(c)[j].base == a.hhdm() + a.class_slabs(c)[j].frame * PAGE_SIZE);
    }
}

/// A slot of a slab class is aligned to its slot size when the direct map is
/// page aligned.
pub proof fn lemma_slot_aligned(hhdm: int, frame: int, slot: int, slot_size: int)
    requires
        hhdm % PAGE_SIZE as int == 0,
        slot_size == 64 || slot_size == 128 || slot_size == 256 || slot_size == 512,
    ensures
        (hhdm + frame * PAGE_SIZE + slot * slot_size) % slot_size == 0,
{
    let m = 4096int / slot_size;
    assert(4096 == slot_size * m);
    let q = hhdm / 4096int;
    assert(hhdm == 4096 * q) by (nonlinear_arith)
        requires q == hhdm / 4096, hhdm % 4096 == 0;
    assert(hhdm + frame * 4096 + slot * slot_size == slot_size * (m * q + m * frame + slot)) by (nonlinear_arith)
        requires hhdm == 4096 * q, 4096 == slot_size * m;
    assert((slot_size * (m * q + m * frame + slot)) % slot_size == 0) by (nonlinear_arith)
        requires slot_size > 0;
}

/// Changing only the bitmaps of slabs keeps the invariant.
proof fn lemma_wf_after_bitmaps(a: &SlabAllocator, b: &SlabAllocator)
    requires
        a.wf(),
        b.frames() == a.frames(),
        b.hhdm() == a.hhdm(),
        b.classes_wf(),
        forall|c: int| 0 <= c < CLASS_COUNT ==> #[trigger] b.class_slabs(c).len() == a.class_slabs(c).len(),
        forall|c: int, k: int|
            #![trigger b.class_slabs(c)[k]]
            0 <= c < CLASS_COUNT && 0 <= k < b.class_slabs(c).len() ==> b.class_slabs(c)[k].base
                == a.class_slabs(c)[k].base && b.class_slabs(c)[k].frame == a.class_slabs(c)[k].frame,
    ensures
        b.wf(),
{
    assert forall|c: int, k: int|
        #![trigger b.class_slabs(c)[k]]
        0 <= c < CLASS_COUNT && 0 <= k < b.class_slabs(c).len() implies b.class_slabs(c)[k].frame
            < b.frame_count() && b.class_slabs(c)[k].base == b.hhdm() + b.class_slabs(c)[k].frame * PAGE_SIZE
            && b.is_locked(b.class_slabs(c)[k].frame as int) by {
        assert(a.class_slabs(c)[k].frame < a.frame_count());
    }
    assert forall|c1: int, k1: int, c2: int, k2: int|
        #![trigger b.class_slabs(c1)[k1], b.class_slabs(c2)[k2]]
        0 <= c1 < CLASS_COUNT && 0 <= k1 < b.class_slabs(c1).len() && 0 <= c2 < CLASS_COUNT && 0 <= k2
            < b.class_slabs(c2).len() && (c1 != c2 || k1 != k2) implies b.class_slabs(c1)[k1].frame
        != b.class_slabs(c2)[k2].frame by {
        assert(a.class_slabs(c1)[k1].frame != a.class_slabs(c2)[k2].frame);
    }
}

/// Adding a slab in a locked frame that holds no slab keeps the invariant.
proof fn lemma_wf_after_push(a: &SlabAllocator, b: &SlabAllocator, class: int, slab: Slab)
    requires
        a.wf(),
        b.frames() == a.frames(),
        b.hhdm() == a.hhdm(),
        b.classes_wf(),
        0 <= class < CLASS_COUNT,
        slab.frame < a.frame_count(),
        slab.base == a.hhdm() + slab.frame * PAGE_SIZE,
        a.is_locked(slab.frame as int),
        !a.is_slab_frame(slab.frame as int),
        b.class_slabs(class) == a.class_slabs(class).push(slab),
        forall|d: int| 0 <= d < CLASS_COUNT && d != class ==> #[trigger] b.class_slabs(d) == a.class_slabs(d),
    ensures
        b.wf(),
{
    let n = a.class_slabs(class).len() as int;
    assert forall|c: int, k: int|
        #![trigger b.class_slabs(c)[k]]
        0 <= c < CLASS_COUNT && 0 <= k < b.class_slabs(c).len() implies b.class_slabs(c)[k].frame
            < b.frame_count() && b.class_slabs(c)[k].base == b.hhdm() + b.class_slabs(c)[k].frame * PAGE_SIZE
            && b.is_locked(b.class_slabs(c)[k].frame as int) by {
        if !(c == class && k == n) {
            assert(b.class_slabs(c)[k] == a.class_slabs(c)[k]);
        }
    }
    assert forall|c1: int, k1: int, c2: int, k2: int|
        #![trigger b.class_slabs(c1)[k1], b.class_slabs(c2)[k2]]
        0 <= c1 < CLASS_COUNT && 0 <= k1 < b.class_slabs(c1).len() && 0 <= c2 < CLASS_COUNT && 0 <= k2
            < b.class_slabs(c2).len() && (c1 != c2 || k1 != k2) implies b.class_slabs(c1)[k1].frame
        != b.class_slabs(c2)[k2].frame by {
        let new1 = c1 == class && k1 == n;
        let new2 = c2 == class && k2 == n;
        if !new1 {
            assert(b.class_slabs(c1)[k1] == a.class_slabs(c1)[k1]);
        }
        if !new2 {
            assert(b.class_slabs(c2)[k2] == a.class_slabs(c2)[k2]);
        }
        if new1 && !new2 {
            if b.class_slabs(c2)[k2].frame == slab.frame {
                assert(a.is_slab_frame(slab.frame as int));
            }
        }
        if new2 && !new1 {
            if b.class_slabs(c1)[k1].frame == slab.frame {
                assert(a.is_slab_frame(slab.frame as int));
            }
        }
    }
}

impl SlabAllocator {
    /// `addr` is the address of a slot in use in a slab of class `class`.
    pub open spec fn slot_in_use(&self, class: int, addr: int) -> bool {
        exists|k: int, j: int|
            #![trigger self.class_slabs(class)[k], slot_used(self.class_slabs(class)[k].used, j)]
            0 <= k < self.class_slabs(class).len() && 0 <= j < slot_count(class_slot_size(class)) && slot_used(
                self.class_slabs(class)[k].used,
                j,
            ) && addr == self.class_slabs(class)[k].base + j * class_slot_size(class)
    }

    /// Going from `self` to `after`, a slot of class `class` at `addr` was
    /// handed out: a free slot of an existing slab, or the first slot of a
    /// frame that was available.
    pub open spec fn slab_step(&self, after: &SlabAllocator, class: int, addr: int) -> bool {
        ||| takes_slot(self.class_slabs(class), after.class_slabs(class), class_slot_size(class), addr)
        ||| (addr >= self.hhdm() && (addr - self.hhdm()) % PAGE_SIZE as int == 0 && self.is_available(
            (addr - self.hhdm()) / PAGE_SIZE as int,
        ))
    }
}

/// Setting bit `j` marks slot `j` in use.
proof fn lemma_mark_used(used: u64, j: u64)
    requires
        j < 64,
    ensures
        slot_used(used | (1u64 << j), j as int),
        slot_used(1u64, 0),
{
    assert((used | (1u64 << j)) & (1u64 << j) != 0) by (bit_vector)
        requires j < 64;
    assert(1u64 & (1u64 << 0u64) != 0) by (bit_vector);
}

/// The slots of a slab lie inside its frame.
proof fn lemma_slot_in_frame(j: int, slot_size: int)
    requires
        slot_size == 64 || slot_size == 128 || slot_size == 256 || slot_size == 512,
        0 <= j < slot_count(slot_size),
    ensures
        0 <= j * slot_size,
        j * slot_size + slot_size <= PAGE_SIZE,
{
    assert(0 <= j * slot_size && j * slot_size + slot_size <= 4096) by (nonlinear_arith)
        requires
            slot_size == 64 || slot_size == 128 || slot_size == 256 || slot_size == 512,
            0 <= j < 4096int / slot_size,
    ;
}

/// A slab allocation never hands out memory that overlaps a slot still in
/// use: the slot it takes was free, and a fresh slab lives in a frame that
/// held no slab.
pub proof fn lemma_slab_allocations_disjoint(
    s1: &SlabAllocator,
    s2: &SlabAllocator,
    used_class: int,
    used_addr: int,
    class: int,
    addr: int,
)
    requires
        s1.wf(),
        0 <= used_class < CLASS_COUNT,
        0 <= class < CLASS_COUNT,
        s1.slot_in_use(used_class, used_addr),
        s1.slab_step(s2, class, addr),
    ensures
        used_addr + class_slot_size(used_class) <= addr || addr + class_slot_size(class) <= used_addr,
{
    let (k1, j1) = choose|k: int, j: int|
        #![trigger s1.class_slabs(used_class)[k], slot_used(s1.class_slabs(used_class)[k].used, j)]
        0 <= k < s1.class_slabs(used_class).len() && 0 <= j < slot_count(class_slot_size(used_class))
            && slot_used(s1.class_slabs(used_class)[k].used, j) && used_addr == s1.class_slabs(used_class)[k].base
            + j * class_slot_size(used_class);
    let ss1 = class_slot_size(used_class);
    let ss2 = class_slot_size(class);
    let slab1 = s1.class_slabs(used_class)[k1];
    lemma_slot_in_frame(j1, ss1);
    assert(slab1.base == s1.hhdm() + slab1.frame * PAGE_SIZE);
    assert(s1.is_locked(slab1.frame as int));
    let slabs = s1.class_slabs(class);
    if takes_slot(slabs, s2.class_slabs(class), ss2, addr) {
        let (i, j2) = choose|i: int, j: int|
            #![trigger slabs[i], slot_used(slabs[i].used, j)]
            0 <= i < slabs.len() && (forall|k: int| 0 <= k < i ==> !#[trigger] has_free_slot(slabs[k], ss2))
                && lowest_free_slot(slabs[i], ss2, j) && addr == slabs[i].base + j * ss2 && s2.class_slabs(class)
                == slabs.update(
                i,
                Slab { base: slabs[i].base, frame: slabs[i].frame, used: slabs[i].used | (1u64 << j as u64) },
            );
        lemma_slot_in_frame(j2, ss2);
        let slab2 = slabs[i];
        assert(slab2.base == s1.hhdm() + slab2.frame * PAGE_SIZE);
        if used_class == class && k1 == i {
            assert(j1 != j2);
            assert(j1 * ss1 + ss1 <= j2 * ss1 || j2 * ss1 + ss1 <= j1 * ss1) by (nonlinear_arith)
                requires j1 != j2, ss1 > 0;
        } else {
            assert(slab1.frame != slab2.frame);
        }
    } else {
        let f = (addr - s1.hhdm()) / PAGE_SIZE as int;
        assert(addr == s1.hhdm() + f * PAGE_SIZE) by (nonlinear_arith)
            requires
                f == (addr - s1.hhdm()) / 4096,
                (addr - s1.hhdm()) % 4096 == 0,
        ;
        assert(f != slab1.frame);
        assert(ss2 <= PAGE_SIZE);
    }
}

/// Frames claimed from a well-formed allocator never hold a slab.
pub proof fn lemma_claimed_frames_hold_no_slab(s1: &SlabAllocator, s2: &SlabAllocator, start: int, count: int)
    requires
        s1.wf(),
        s1.claims(s2, start, count),
    ensures
        forall|i: int| start <= i < start + count ==> !#[trigger] s1.is_slab_frame(i),
{
    assert forall|i: int| start <= i < start + count implies !#[trigger] s1.is_slab_frame(i) by {
        if s1.is_slab_frame(i) {
            lemma_slab_frame_locked(s1, i);
        }
    }
}

impl SlabAllocator {
    /// Every class but `class` kept its slabs.
    pub open spec fn other_classes_kept(&self, after: &SlabAllocator, class: int) -> bool {
        forall|d: int| 0 <= d < CLASS_COUNT && d != class ==> #[trigger] after.class_slabs(d) == self.class_slabs(d)
    }

    /// Going from `self` to `after` released every table frame from
    /// `start` on, up to `count` of them, that holds no slab: each is now
    /// unlocked, and nothing else changed.
    pub open spec fn releases_range(&self, after: &SlabAllocator, start: int, count: int) -> bool {
        &&& after.frame_count() == self.frame_count()
        &&& forall|i: int| 0 <= i < self.frame_count() ==> #[trigger] after.type_of(i) == self.type_of(i)
        &&& forall|i: int|
            #![trigger after.is_locked(i)]
            0 <= i < self.frame_count() ==> after.is_locked(i) == (self.is_locked(i) && !(start <= i
                < start + count && !self.is_slab_frame(i)))
    }

    /// The frame a one-frame request served at `addr` took from `self`.
    pub open spec fn takes_frame(&self, after: &SlabAllocator, addr: int) -> bool {
        &&& addr >= self.hhdm()
        &&& (addr - self.hhdm()) % PAGE_SIZE as int == 0
        &&& self.first_available((addr - self.hhdm()) / PAGE_SIZE as int)
        &&& self.claims(after, (addr - self.hhdm()) / PAGE_SIZE as int, 1)
    }

    /// Serves a request of `size` bytes aligned to `align`, and returns the
    /// address and length of the memory handed out. Small requests take a
    /// slot of the first slab class that covers them, cutting a fresh frame
    /// into a new slab when the class has no free slot; larger ones take one
    /// frame, or the lowest aligned run of frames that holds them.
    pub fn allocate(&mut self, size: usize, align: usize) -> (r: Result<(usize, usize), AllocError>)
        requires
            old(self).wf(),
        ensures
            final(self).wf(),
            final(self).hhdm() == old(self).hhdm(),
            match route_of(size as int, align as int) {
                AllocRoute::Slab(slot_size) => {
                    let c = class_of(slot_size as int);
                    let slabs = old(self).class_slabs(c);
                    &&& old(self).other_classes_kept(final(self), c)
                    &&& r matches Ok((addr, _)) ==> (old(self).hhdm() % PAGE_SIZE == 0 ==> addr % slot_size == 0)
                    &&& r matches Ok((addr, _)) ==> old(self).slab_step(final(self), c, addr as int)
                        && final(self).slot_in_use(c, addr as int)
                    &&& if exists|i: int| 0 <= i < slabs.len() && #[trigger] has_free_slot(slabs[i], slot_size as int) {
                        &&& final(self).same_frames(old(self))
                        &&& r matches Ok((addr, len)) && len == slot_size && takes_slot(
                            slabs,
                            final(self).class_slabs(c),
                            slot_size as int,
                            addr as int,
                        )
                    } else {
                        &&& r is Ok <==> exists|f: int| old(self).is_available(f)
                        &&& r matches Ok((addr, len)) ==> len == slot_size && old(self).takes_frame(
                            final(self),
                            addr as int,
                        ) && final(self).class_slabs(c) == slabs.push((Slab { base: addr, frame: ((addr - old(self).hhdm()) / PAGE_SIZE as int) as usize, used: 1 }))
                        &&& r is Err ==> final(self).same_frames(old(self)) && final(self).class_slabs(c) == slabs
                    }
                },
                AllocRoute::Frame => {
                    &&& old(self).other_classes_kept(final(self), -1)
                    &&& r is Ok <==> exists|f: int| old(self).is_available(f)
                    &&& r matches Ok((addr, len)) ==> len == PAGE_SIZE && old(self).takes_frame(
                        final(self),
                        addr as int,
                    )
                    &&& r is Err ==> final(self).same_frames(old(self))
                },
                AllocRoute::Frames(count) => {
                    let fa = frame_alignment(align as int);
                    &&& old(self).other_classes_kept(final(self), -1)
                    &&& r is Ok <==> exists|s: int| old(self).eligible(s, count as int, fa)
                    &&& r matches Ok((addr, len)) ==> {
                        let s = (addr - old(self).hhdm()) / PAGE_SIZE as int;
                        &&& addr >= old(self).hhdm()
                        &&& (addr - old(self).hhdm()) % PAGE_SIZE as int == 0
                        &&& len == count * PAGE_SIZE
                        &&& old(self).first_eligible(s, count as int, fa)
                        &&& old(self).claims(final(self), s, count as int)
                    }
                    &&& r is Err ==> final(self).same_frames(old(self))
                },
            },
    {
        match route(size, align) {
            AllocRoute::Slab(slot_size) => {
                let c = class_index(slot_size);
                assert(self.slab_classes()[c as int].wf(c as int));
                let ghost slabs = self.class_slabs(c as int);
                match self.classes[c].find_slot(Ghost(c as int)) {
                    Some((i, j)) => {
                        let addr = self.classes[c].take_slot(i, j, Ghost(c as int));
                        proof {
                            assert forall|d: int| 0 <= d < CLASS_COUNT implies #[trigger] self.slab_classes()[d].wf(d) by {
                            }
                            let ss = slot_size as int;
                            assert(has_free_slot(slabs[i as int], ss));
                            assert(takes_slot(slabs, self.class_slabs(c as int), ss, addr as int));
                            lemma_wf_after_bitmaps(old(self), self);
                            let slab = slabs[i as int];
                            assert(slab.base == old(self).hhdm() + slab.frame * PAGE_SIZE);
                            if old(self).hhdm() % PAGE_SIZE == 0 {
                                lemma_slot_aligned(old(self).hhdm() as int, slab.frame as int, j as int, ss);
                            }
                            lemma_mark_used(slab.used, j as u64);
                            let after = self.class_slabs(c as int);
                            assert(after[i as int].used == slab.used | (1u64 << j as u64));
                            assert(slot_used(after[i as int].used, j as int));
                            assert(self.slot_in_use(c as int, addr as int));
                        }
                        Ok((addr, slot_size))
                    },
                    None => {
                        match self.lock_next() {
                            Ok(frame) => {
                                proof {
                                    lemma_frame_address((frame / PAGE_SIZE) as int, self.frame_count() as int);
                                    assert((frame / PAGE_SIZE) as int * PAGE_SIZE == frame as int);
                                    assert(((frame / PAGE_SIZE) as int + 1) * PAGE_SIZE <= self.frame_count() * PAGE_SIZE) by (nonlinear_arith)
                                        requires ((frame / PAGE_SIZE) as int) < self.frame_count();
                                }
                                let base = self.phys_mapped_address + frame;
                                let ghost after_lock = *self;
                                let slab = Slab { base, frame: frame / PAGE_SIZE, used: 1 };
                                self.classes[c].slabs.push(slab);
                                proof {
                                    let f = (frame / PAGE_SIZE) as int;
                                    lemma_slab_frames_same(&after_lock, old(self));
                                    if old(self).is_slab_frame(f) {
                                        lemma_slab_frame_locked(old(self), f);
                                    }
                                    assert(self.class_slabs(c as int) == after_lock.class_slabs(c as int).push(slab));
                                    assert forall|d: int| 0 <= d < CLASS_COUNT implies #[trigger] self.slab_classes()[d].wf(d) by {
                                    }
                                    lemma_wf_after_push(&after_lock, self, c as int, slab);
                                    if old(self).hhdm() % PAGE_SIZE == 0 {
                                        lemma_slot_aligned(old(self).hhdm() as int, f, 0, slot_size as int);
                                    }
                                    lemma_mark_used(0, 0);
                                    let n = after_lock.class_slabs(c as int).len() as int;
                                    assert(self.class_slabs(c as int)[n] == slab);
                                    assert(slot_used(self.class_slabs(c as int)[n].used, 0));
                                    assert(slot_count(slot_size as int) > 0);
                                    assert(self.slot_in_use(c as int, base as int));
                                    assert(old(self).slab_step(self, c as int, base as int));
                                    assert(self.frames() == after_lock.frames());
                                    lemma_claims_same_table(
                                        old(self),
                                        &after_lock,
                                        self,
                                        (frame / PAGE_SIZE) as int,
                                        1,
                                    );
                                    assert forall|d: int| 0 <= d < CLASS_COUNT implies #[trigger] self.slab_classes()[d].wf(d) by {
                                    }
                                }
                                Ok((base, slot_size))
                            },
                            Err(e) => Err(e),
                        }
                    },
                }
            },
            AllocRoute::Frame => {
                match self.lock_next() {
                    Ok(frame) => {
                        proof {
                            lemma_frame_address((frame / PAGE_SIZE) as int, self.frame_count() as int);
                            assert((frame / PAGE_SIZE) as int * PAGE_SIZE == frame as int);
                        }
                        Ok((self.phys_mapped_address + frame, PAGE_SIZE))
                    },
                    Err(e) => Err(e),
                }
            },
            AllocRoute::Frames(count) => {
                match self.lock_next_many(count, align) {
                    Ok(frame) => {
                        proof {
                            let s = (frame / PAGE_SIZE) as int;
                            lemma_frame_address(s, self.frame_count() as int);
                            assert(s * PAGE_SIZE == frame as int);
                            assert(count * PAGE_SIZE <= self.frame_count() * PAGE_SIZE) by (nonlinear_arith)
                                requires count <= self.frame_count();
                        }
                        Ok((self.phys_mapped_address + frame, count * PAGE_SIZE))
                    },
                    Err(e) => Err(e),
                }
            },
        }
    }

    /// Releases every table frame from `first` on, up to `count` of them,
    /// that holds no slab.
    fn release_frames(&mut self, first: usize, count: usize)
        requires
            old(self).wf(),
        ensures
            final(self).wf(),
            final(self).hhdm() == old(self).hhdm(),
            final(self).slab_classes() == old(self).slab_classes(),
            old(self).releases_range(final(self), first as int, count as int),
    {
        let len = self.table.len();
        if first >= len {
            return;
        }
        let last = if count > len - first {
            len
        } else {
            first + count
        };
        let mut i = first;
        while i < last
            invariant
                first <= i <= last <= len == self.frame_count(),
                last == len || last == first + count,
                self.wf(),
                self.hhdm() == old(self).hhdm(),
                self.slab_classes() == old(self).slab_classes(),
                old(self).releases_range(self, first as int, i - first),
            decreases last - i,
        {
            proof {
                lemma_frame_address(i as int, len as int);
            }
            let ghost prev = *self;
            proof {
                lemma_slab_frames_same(&prev, old(self));
            }
            if !self.holds_slab(i) {
                let _ = self.free(i * PAGE_SIZE);
            }
            assert forall|j: int| 0 <= j < self.frame_count() implies #[trigger] self.type_of(j) == old(self).type_of(j)
                && self.is_locked(j) == (old(self).is_locked(j) && !(first <= j < i + 1
                && !old(self).is_slab_frame(j))) by {
                assert(prev.is_locked(j) == (old(self).is_locked(j) && !(first <= j < i
                    && !old(self).is_slab_frame(j))));
                assert(prev.type_of(j) == old(self).type_of(j));
                if j != i {
                    assert(self.is_locked(j) == prev.is_locked(j));
                }
            }
            i += 1;
        }
    }

    /// Takes back memory that `allocate` handed out at `addr` for the same
    /// size and alignment. A slot is marked free in its slab, and slabs are
    /// kept even when they become empty; whole frames are released, but a
    /// frame that holds a slab stays with its slab.
    pub fn deallocate(&mut self, addr: usize, size: usize, align: usize)
        requires
            old(self).wf(),
        ensures
            final(self).wf(),
            final(self).hhdm() == old(self).hhdm(),
            match route_of(size as int, align as int) {
                AllocRoute::Slab(slot_size) => {
                    let c = class_of(slot_size as int);
                    let slabs = old(self).class_slabs(c);
                    &&& old(self).other_classes_kept(final(self), c)
                    &&& final(self).same_frames(old(self))
                    &&& forall|i: int|
                        0 <= i < slabs.len() && #[trigger] slab_holds(slabs[i], addr as int)
                            ==> final(self).class_slabs(c)
                            == slabs.update(i, freed_slot(slabs[i], slot_size as int, addr as int))
                    &&& (forall|i: int| 0 <= i < slabs.len() ==> !#[trigger] slab_holds(slabs[i], addr as int))
                        ==> final(self).class_slabs(c) == slabs
                },
                AllocRoute::Frame => {
                    &&& old(self).other_classes_kept(final(self), -1)
                    &&& addr >= old(self).hhdm() ==> old(self).releases_range(
                        final(self),
                        (addr - old(self).hhdm()) / PAGE_SIZE as int,
                        1,
                    )
                    &&& addr < old(self).hhdm() ==> final(self).same_frames(old(self))
                },
                AllocRoute::Frames(count) => {
                    &&& old(self).other_classes_kept(final(self), -1)
                    &&& addr >= old(self).hhdm() ==> old(self).releases_range(
                        final(self),
                        (addr - old(self).hhdm()) / PAGE_SIZE as int,
                        count as int,
                    )
                    &&& addr < old(self).hhdm() ==> final(self).same_frames(old(self))
                },
            },
    {
        let (count, slot_size) = match route(size, align) {
            AllocRoute::Slab(slot_size) => (0, slot_size),
            AllocRoute::Frame => (1, 0),
            AllocRoute::Frames(count) => (count, 0),
        };
        if slot_size != 0 {
            let c = class_index(slot_size);
            assert(self.slab_classes()[c as int].wf(c as int));
            let ghost before = *self;
            let ghost slabs = self.class_slabs(c as int);
            self.classes[c].release_slot(addr, Ghost(c as int));
            proof {
                let ss = slot_size as int;
                let after = self.class_slabs(c as int);
                assert forall|d: int| 0 <= d < CLASS_COUNT implies #[trigger] self.slab_classes()[d].wf(d) by {}
                assert(self.frames() == before.frames());
                assert forall|i: int| 0 <= i < self.frame_count() implies #[trigger] self.is_locked(i)
                    == old(self).is_locked(i) && self.type_of(i) == old(self).type_of(i) by {}
                assert forall|k: int| 0 <= k < slabs.len() implies #[trigger] after[k] == if slab_holds(slabs[k], addr as int) {
                    freed_slot(slabs[k], ss, addr as int)
                } else {
                    slabs[k]
                } by {}
                lemma_wf_after_bitmaps(old(self), self);
                assert forall|i: int|
                    0 <= i < slabs.len() && #[trigger] slab_holds(slabs[i], addr as int) implies after
                        == slabs.update(i, freed_slot(slabs[i], ss, addr as int)) by {
                    assert forall|k: int| 0 <= k < slabs.len() implies #[trigger] after[k] == slabs.update(
                        i,
                        freed_slot(slabs[i], ss, addr as int),
                    )[k] by {
                        if k != i && slab_holds(slabs[k], addr as int) {
                            lemma_owner_unique(old(self), c as int, i, k, addr as int);
                        }
                    }
                    assert(after =~= slabs.update(i, freed_slot(slabs[i], ss, addr as int)));
                }
                if forall|i: int| 0 <= i < slabs.len() ==> !#[trigger] slab_holds(slabs[i], addr as int) {
                    assert(after =~= slabs);
                }
            }
        } else if addr >= self.phys_mapped_address {
            self.release_frames((addr - self.phys_mapped_address) / PAGE_SIZE, count);
        } else {
            assert forall|i: int| 0 <= i < self.frame_count() implies #[trigger] self.is_locked(i)
                == old(self).is_locked(i) && self.type_of(i) == old(self).type_of(i) by {}
        }
    }
}

} // verus!
