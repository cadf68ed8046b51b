//! The frame allocator: finds, claims and releases frames of the frame table.

use crate::frame::{Frame, FrameType};
use crate::memory_map::{
    boot_type, find_host, first_host, frame_type_of, hosts_table, lemma_map_end, lemma_region_frames, map_end,
    mapped_type, page_count, table_bytes, table_size, MmapEntry,
};
use crate::slab::{
    empty_classes, lemma_wf_after_claims, lemma_wf_after_release, lemma_wf_after_same, lemma_wf_after_slab_release,
    AllocError, SlabAllocator, CLASS_COUNT,
};
use vstd::arithmetic::power2::{lemma2_to64, lemma_pow2_adds, lemma_pow2_pos, pow2};
use vstd::prelude::*;

verus! {

/// Size in bytes of one physical frame.
pub const PAGE_SIZE: usize = 4096;

/// The address of frame `index` of a table of `len` frames, and its way back.
pub proof fn lemma_frame_address(index: int, len: int)
    requires
        0 <= index < len,
    ensures
        index * PAGE_SIZE < len * PAGE_SIZE,
        (index * PAGE_SIZE) / PAGE_SIZE as int == index,
        (index * PAGE_SIZE) % PAGE_SIZE as int == 0,
{
    assert(index * 4096 < len * 4096) by (nonlinear_arith)
        requires index < len;
    assert((index * 4096) / 4096 == index) by (nonlinear_arith);
    assert((index * 4096) % 4096 == 0) by (nonlinear_arith);
}

/// Sets the type of frames `start .. end` of a table, each under its latch.
fn set_types(table: &mut Vec<Frame>, start: usize, end: usize, ty: FrameType)
    requires
        start <= end <= old(table)@.len(),
        forall|i: int|
            #![trigger old(table)@[i]]
            0 <= i < old(table)@.len() ==> old(table)@[i].wf() && !old(table)@[i].peeked(),
    ensures
        final(table)@.len() == old(table)@.len(),
        forall|i: int|
            #![trigger final(table)@[i]]
            0 <= i < final(table)@.len() ==> final(table)@[i].wf() && !final(table)@[i].peeked()
                && final(table)@[i].locked() == old(table)@[i].locked() && final(table)@[i].ty() == if start
                <= i < end {
                ty
            } else {
                old(table)@[i].ty()
            },
{
    let mut idx = start;
    while idx < end
        invariant
            start <= idx <= end <= table@.len() == old(table)@.len(),
            forall|i: int|
                #![trigger table@[i]]
                0 <= i < table@.len() ==> table@[i].wf() && !table@[i].peeked()
                    && table@[i].locked() == old(table)@[i].locked() && table@[i].ty() == if start <= i
                    < idx {
                    ty
                } else {
                    old(table)@[i].ty()
                },
        decreases end - idx,
    {
        let ghost prev = table@;
        table[idx].peek();
        table[idx].modify_type(ty);
        table[idx].unpeek();
        assert forall|i: int| 0 <= i < table@.len() && i != idx implies #[trigger] table@[i] == prev[i] by {}
        idx += 1;
    }
}

/// The alignment of a request in frames: alignments below one frame count as one.
pub open spec fn frame_alignment(alignment: int) -> int {
    if alignment / PAGE_SIZE as int == 0 {
        1
    } else {
        alignment / PAGE_SIZE as int
    }
}

/// Rounding `x` up to a multiple of `align` adds `align - x % align` when `x`
/// is not a multiple itself.
pub proof fn lemma_align_up(x: int, align: int)
    requires
        0 <= x,
        0 < align,
        x % align != 0,
    ensures
        0 < align - x % align < align,
        (x + (align - x % align)) % align == 0,
{
    let q = x / align;
    let r = x % align;
    assert(x == align * q + r) by (nonlinear_arith)
        requires q == x / align, r == x % align, 0 < align;
    assert(x + (align - r) == align * (q + 1)) by (nonlinear_arith)
        requires x == align * q + r;
    assert((align * (q + 1)) % align == 0) by (nonlinear_arith)
        requires 0 < align;
    assert(0 < r < align) by (nonlinear_arith)
        requires r == x % align, 0 < align, r != 0;
}

/// No multiple of `align` lies between `x` and `x` rounded up to one.
pub proof fn lemma_align_up_least(x: int, align: int, s: int)
    requires
        0 <= x,
        0 < align,
        x % align != 0,
        0 <= s,
        s % align == 0,
        x <= s,
    ensures
        x + (align - x % align) <= s,
{
    let q = x / align;
    let r = x % align;
    assert(x == align * q + r) by (nonlinear_arith)
        requires q == x / align, r == x % align, 0 < align;
    let p = s / align;
    assert(s == align * p) by (nonlinear_arith)
        requires p == s / align, s % align == 0, 0 < align;
    assert(0 < r < align) by (nonlinear_arith)
        requires r == x % align, 0 < align, r != 0;
    assert(p >= q + 1) by (nonlinear_arith)
        requires s == align * p, x == align * q + r, x <= s, 0 < r < align, 0 < align;
    assert(align * p >= align * (q + 1)) by (nonlinear_arith)
        requires p >= q + 1, 0 < align;
    assert(x + (align - r) == align * (q + 1)) by (nonlinear_arith)
        requires x == align * q + r;
}

/// A claim holds of any state with the same table as the one it ends in.
pub(crate) proof fn lemma_claims_same_table(
    a: &SlabAllocator,
    b: &SlabAllocator,
    c: &SlabAllocator,
    start: int,
    count: int,
)
    requires
        a.claims(b, start, count),
        b.frames() == c.frames(),
    ensures
        a.claims(c, start, count),
{
    assert forall|i: int| 0 <= i < a.frame_count() implies #[trigger] c.type_of(i) == a.type_of(i)
        && c.is_locked(i) == b.is_locked(i) by {
        assert(b.type_of(i) == a.type_of(i));
    }
    assert forall|i: int| start <= i < start + count implies #[trigger] c.is_locked(i) by {
        assert(b.is_locked(i));
    }
    assert forall|i: int| 0 <= i < a.frame_count() && !(start <= i < start + count) implies #[trigger] c.is_locked(i)
        == a.is_locked(i) by {
        assert(b.is_locked(i) == a.is_locked(i));
    }
}

/// Agreement on every frame's `locked` bit and type is transitive.
pub proof fn lemma_same_frames_trans(a: &SlabAllocator, b: &SlabAllocator, c: &SlabAllocator)
    requires
        a.same_frames(b),
        b.same_frames(c),
    ensures
        a.same_frames(c),
{
    assert forall|i: int| 0 <= i < a.frame_count() implies #[trigger] a.is_locked(i) == c.is_locked(i)
        && a.type_of(i) == c.type_of(i) by {
        assert(a.frame_count() == b.frame_count());
        assert(0 <= i < b.frame_count());
        assert(a.is_locked(i) == b.is_locked(i));
        assert(b.is_locked(i) == c.is_locked(i));
        assert(a.type_of(i) == b.type_of(i));
        assert(b.type_of(i) == c.type_of(i));
    }
}

/// A claim measured from a table carries over to any table that agrees with
/// it on every frame's `locked` bit and type.
pub proof fn lemma_claims_transfer(
    a: &SlabAllocator,
    b: &SlabAllocator,
    c: &SlabAllocator,
    start: int,
    count: int,
)
    requires
        b.same_frames(a),
        b.claims(c, start, count),
    ensures
        a.claims(c, start, count),
{
    assert forall|i: int| 0 <= i < a.frame_count() implies #[trigger] c.type_of(i) == a.type_of(i) by {
        assert(b.is_locked(i) == a.is_locked(i));
        assert(b.type_of(i) == a.type_of(i));
    }
    assert forall|i: int| start <= i < start + count implies !#[trigger] a.is_locked(i) by {
        assert(b.is_locked(i) == a.is_locked(i));
        assert(!b.is_locked(i));
    }
    assert forall|i: int| 0 <= i < a.frame_count() && !(start <= i < start + count) implies #[trigger] c.is_locked(i)
        == a.is_locked(i) by {
        assert(b.is_locked(i) == a.is_locked(i));
    }
}

impl SlabAllocator {
    /// The frame table, one cell per physical frame, indexed by frame number.
    pub open(crate) spec fn frames(&self) -> Seq<Frame> {
        self.table@
    }

    /// The base of the higher-half direct map.
    pub open(crate) spec fn hhdm(&self) -> usize {
        self.phys_mapped_address
    }

    /// Every cell is well formed and unlatched, and the direct map covers the table.
    pub open(crate) spec fn table_wf(&self) -> bool {
        &&& forall|i: int| 0 <= i < self.frames().len() ==> #[trigger] self.frames()[i].wf()
        &&& forall|i: int| 0 <= i < self.frames().len() ==> !#[trigger] self.frames()[i].peeked()
        &&& self.hhdm() + self.frames().len() * PAGE_SIZE <= usize::MAX
    }

    pub open spec fn frame_count(&self) -> nat {
        self.frames().len()
    }

    pub open spec fn is_locked(&self, i: int) -> bool {
        self.frames()[i].locked()
    }

    pub open spec fn type_of(&self, i: int) -> FrameType {
        self.frames()[i].ty()
    }

    /// Frame `i` exists, is unlocked and is `Generic`.
    pub open spec fn is_available(&self, i: int) -> bool {
        0 <= i < self.frame_count() && !self.is_locked(i) && self.type_of(i) == FrameType::Generic
    }

    /// Frames `start .. start + count` exist and are all available.
    pub open spec fn window_available(&self, start: int, count: int) -> bool {
        &&& 0 <= start
        &&& start + count <= self.frame_count()
        &&& forall|i: int| start <= i < start + count ==> #[trigger] self.is_available(i)
    }

    /// The two tables agree on every frame's `locked` bit and type.
    pub open spec fn same_frames(&self, other: &SlabAllocator) -> bool {
        &&& self.frame_count() == other.frame_count()
        &&& forall|i: int|
            #![trigger self.is_locked(i)]
            0 <= i < self.frame_count() ==> self.is_locked(i) == other.is_locked(i) && self.type_of(i)
                == other.type_of(i)
    }

    /// Going from `self` to `after` claimed frames `start .. start + count`:
    /// each of them was unlocked and is now locked, with its type kept, and
    /// nothing else changed.
    pub open spec fn claims(&self, after: &SlabAllocator, start: int, count: int) -> bool {
        &&& 0 <= start
        &&& start + count <= self.frame_count()
        &&& after.frame_count() == self.frame_count()
        &&& forall|i: int|
            0 <= i < self.frame_count() ==> #[trigger] after.type_of(i) == self.type_of(i)
        &&& forall|i: int| start <= i < start + count ==> !#[trigger] self.is_locked(i)
        &&& forall|i: int| start <= i < start + count ==> #[trigger] after.is_locked(i)
        &&& forall|i: int|
            0 <= i < self.frame_count() && !(start <= i < start + count) ==> #[trigger] after.is_locked(i)
                == self.is_locked(i)
    }

    /// The lowest available frame, if any.
    pub open spec fn first_available(&self, i: int) -> bool {
        &&& self.is_available(i)
        &&& forall|j: int| 0 <= j < i ==> !#[trigger] self.is_available(j)
    }

    /// Builds the allocator over a table for the memory described by `memory_map`.
    /// The table covers every frame up to the map's highest end address and is
    /// placed at the start of the first usable region large enough to hold it;
    /// each region gives its frames their type, a later region overriding an
    /// earlier one, and the frames under the table itself become `Reserved`.
    /// Some usable region must be able to hold the table: `table_host`
    /// tells whether one can.
    pub fn from_memory_map(memory_map: &[MmapEntry], phys_mapped_address: usize) -> (r: Option<
        SlabAllocator,
    >)
        requires
            forall|k: int|
                #![trigger memory_map@[k]]
                0 <= k < memory_map@.len() ==> memory_map@[k].base as int % PAGE_SIZE as int == 0
                    && memory_map@[k].base + memory_map@[k].len <= u64::MAX,
            phys_mapped_address + page_count(memory_map@) * PAGE_SIZE <= usize::MAX,
            exists|k: int|
                0 <= k < memory_map@.len() && #[trigger] hosts_table(memory_map@[k], table_bytes(memory_map@)),
        ensures
            r matches Some(a) && {
                &&& a.wf()
                &&& a.frame_count() == page_count(memory_map@)
                &&& a.hhdm() == phys_mapped_address
                &&& a.slabs_empty()
                &&& exists|k: int|
                    first_host(memory_map@, k) && forall|i: int|
                        #![trigger a.type_of(i)]
                        0 <= i < a.frame_count() ==> !a.is_locked(i) && a.type_of(i) == boot_type(
                            memory_map@,
                            memory_map@[k],
                            i,
                        )
            },
    {
        let ghost map = memory_map@;
        let n = memory_map.len();
        let (pages, table_bytes_) = table_size(memory_map);
        assert(pages as int * 4096 <= usize::MAX);
        let host = find_host(memory_map, table_bytes_);
        assert(host < n);
        assert(first_host(map, host as int));
        let page_total = pages as usize;
        let mut table: Vec<Frame> = Vec::new();
        while table.len() < page_total
            invariant
                table@.len() <= page_total,
                forall|i: int|
                    #![trigger table@[i]]
                0 <= i < table@.len() ==> table@[i].wf() && !table@[i].peeked()
                        && !table@[i].locked() && table@[i].ty() == FrameType::Unusable,
            decreases page_total - table@.len(),
        {
            table.push(Frame::zeroed());
        }
        // Each region gives its frames their type.
        let mut k: usize = 0;
        while k < n
            invariant
                k <= n == map.len(),
                map == memory_map@,
                table@.len() == page_total == page_count(map),
                forall|j: int|
                    #![trigger map[j]]
                    0 <= j < map.len() ==> map[j].base as int % PAGE_SIZE as int == 0 && map[j].base
                        + map[j].len <= u64::MAX,
                forall|i: int|
                    #![trigger table@[i]]
                0 <= i < table@.len() ==> table@[i].wf() && !table@[i].peeked()
                        && !table@[i].locked() && table@[i].ty() == mapped_type(map.take(k as int), i),
            decreases n - k,
        {
            let entry = memory_map[k];
            proof {
                lemma_map_end(map, k as int);
                lemma_region_frames(entry.base as int, entry.len as int, map_end(map));
            }
            let first = (entry.base / 4096) as usize;
            let count = (entry.len / 4096) as usize;
            let ty = frame_type_of(entry.typ);
            let ghost before = table@;
            set_types(&mut table, first, first + count, ty);
            assert(map.take(k + 1).drop_last() == map.take(k as int));
            assert(map.take(k + 1).last() == entry);
            assert forall|i: int| 0 <= i < table@.len() implies #[trigger] table@[i].ty() == mapped_type(
                map.take(k + 1),
                i,
            ) by {
                assert(before[i].ty() == mapped_type(map.take(k as int), i));
            }
            k += 1;
        }
        assert(map.take(n as int) == map);
        // The frames under the table itself are never handed out.
        let host_entry = memory_map[host];
        proof {
            lemma_map_end(map, host as int);
            lemma_region_frames(host_entry.base as int, table_bytes_ as int, map_end(map));
            assert((table_bytes_ as int / 4096) * 4096 == table_bytes_ as int) by (nonlinear_arith)
                requires
                    table_bytes_ as int == (page_count(map) * 2 + 4095) / 4096 * 4096,
            ;
        }
        let first = (host_entry.base / 4096) as usize;
        let count = (table_bytes_ / 4096) as usize;
        let ghost before = table@;
        set_types(&mut table, first, first + count, FrameType::Reserved);
        let r = SlabAllocator { classes: empty_classes(), phys_mapped_address, table };
        assert forall|i: int|
            #![trigger r.type_of(i)]
            0 <= i < r.frame_count() implies !r.is_locked(i) && r.type_of(i) == boot_type(
                map,
                map[host as int],
                i,
            ) by {
            assert(before[i].ty() == mapped_type(map, i));
        }
        Some(r)
    }

    /// Claims the lowest-numbered available frame and returns its physical address.
    pub fn lock_next(&mut self) -> (r: Result<usize, AllocError>)
        requires
            old(self).wf(),
        ensures
            final(self).wf(),
            final(self).hhdm() == old(self).hhdm(),
            final(self).slab_classes() == old(self).slab_classes(),
            r is Ok <==> exists|i: int| old(self).is_available(i),
            r matches Ok(addr) ==> addr % PAGE_SIZE == 0,
            r matches Ok(addr) ==> old(self).first_available((addr / PAGE_SIZE) as int),
            r matches Ok(addr) ==> old(self).claims(final(self), (addr / PAGE_SIZE) as int, 1),
            r is Err ==> final(self).same_frames(old(self)),
    {
        let len = self.table.len();
        let mut index: usize = 0;
        while index < len
            invariant
                len == self.frames().len(),
                index <= len,
                self.table_wf(),
                old(self).wf(),
                self.same_frames(old(self)),
                self.hhdm() == old(self).hhdm(),
                self.slab_classes() == old(self).slab_classes(),
                forall|j: int| 0 <= j < index ==> !#[trigger] old(self).is_available(j),
            decreases len - index,
        {
            assert(self.is_locked(index as int) == old(self).is_locked(index as int));
            let ghost prev = *self;
            let won = self.table[index].try_peek();
            if won {
                let (locked, ty) = self.table[index].data();
                if !locked && ty == FrameType::Generic {
                    assert(old(self).is_available(index as int));
                    self.table[index].lock();
                    self.table[index].unpeek();
                    proof {
                        assert(self.table_wf());
                        assert forall|i: int| 0 <= i < self.frame_count() && i != index implies #[trigger] self.is_locked(i)
                            == old(self).is_locked(i) && self.type_of(i) == old(self).type_of(i) by {
                            assert(prev.is_locked(i) == old(self).is_locked(i));
                        }
                        assert forall|i: int| 0 <= i < self.frame_count() implies #[trigger] self.type_of(i)
                            == old(self).type_of(i) by {
                            assert(prev.is_locked(i) == old(self).is_locked(i));
                        }
                        lemma_frame_address(index as int, len as int);
                    }
                    proof {
                        assert(old(self).claims(self, index as int, 1));
                        lemma_wf_after_claims(old(self), self, index as int, 1);
                    }
                    return Ok(index * PAGE_SIZE);
                }
                self.table[index].unpeek();
                assert(!old(self).is_available(index as int));
            }
            assert(self.frame_count() == prev.frame_count());
            assert forall|i: int| 0 <= i < self.frame_count() implies #[trigger] self.is_locked(i)
                == old(self).is_locked(i) && self.type_of(i) == old(self).type_of(i) by {
                assert(prev.is_locked(i) == old(self).is_locked(i));
                if i != index {
                    assert(self.frames()[i] == prev.frames()[i]);
                }
            }
            index += 1;
        }
        proof {
            lemma_wf_after_same(old(self), self);
        }
        Err(AllocError)
    }

    /// Frames `start .. end` hold their latch and no other frame does; every
    /// cell is well formed and the direct map covers the table.
    pub open(crate) spec fn latched(&self, start: int, end: int) -> bool {
        &&& 0 <= start <= end <= self.frames().len()
        &&& forall|i: int| 0 <= i < self.frames().len() ==> #[trigger] self.frames()[i].wf()
        &&& forall|i: int|
            0 <= i < self.frames().len() ==> (#[trigger] self.frames()[i].peeked() <==> start <= i
                < end)
        &&& self.hhdm() + self.frames().len() * PAGE_SIZE <= usize::MAX
    }

    /// Frames `start .. start + count` are aligned to `frame_alignment` and available.
    pub open spec fn eligible(&self, start: int, count: int, frame_alignment: int) -> bool {
        &&& start % frame_alignment == 0
        &&& self.window_available(start, count)
    }

    /// `start` is the lowest start of an eligible window.
    pub open spec fn first_eligible(&self, start: int, count: int, frame_alignment: int) -> bool {
        &&& self.eligible(start, count, frame_alignment)
        &&& forall|s: int| 0 <= s < start ==> !#[trigger] self.eligible(s, count, frame_alignment)
    }

    /// Takes the latch of frames `start .. end`.
    fn peek_range(&mut self, start: usize, end: usize)
        requires
            old(self).table_wf(),
            start <= end <= old(self).frames().len(),
        ensures
            final(self).latched(start as int, end as int),
            final(self).same_frames(old(self)),
            final(self).hhdm() == old(self).hhdm(),
            final(self).slab_classes() == old(self).slab_classes(),
    {
        let mut i = start;
        while i < end
            invariant
                start <= i <= end <= self.frames().len(),
                self.latched(start as int, i as int),
                self.same_frames(old(self)),
                self.hhdm() == old(self).hhdm(),
                self.slab_classes() == old(self).slab_classes(),
            decreases end - i,
        {
            let ghost prev = *self;
            assert(self.frames()[i as int].wf() && !self.frames()[i as int].peeked());
            self.table[i].peek();
            assert(self.frames().len() == prev.frames().len());
            assert(self.is_locked(i as int) == prev.is_locked(i as int));
            assert forall|j: int| 0 <= j < self.frame_count() implies #[trigger] self.is_locked(j)
                == old(self).is_locked(j) && self.type_of(j) == old(self).type_of(j) by {
                assert(prev.is_locked(j) == old(self).is_locked(j));
            }
            assert forall|j: int| 0 <= j < self.frames().len() implies #[trigger] self.frames()[j].wf()
                && (self.frames()[j].peeked() <==> start <= j < i + 1) by {
                assert(prev.frames()[j].wf());
                assert(prev.frames()[j].peeked() <==> start <= j < i);
            }
            i += 1;
        }
    }

    /// Releases the latch of frames `start .. end`.
    fn unpeek_range(&mut self, start: usize, end: usize)
        requires
            old(self).latched(start as int, end as int),
        ensures
            final(self).table_wf(),
            final(self).same_frames(old(self)),
            final(self).hhdm() == old(self).hhdm(),
            final(self).slab_classes() == old(self).slab_classes(),
    {
        let mut i = start;
        while i < end
            invariant
                start <= i <= end <= self.frames().len(),
                self.latched(i as int, end as int),
                self.same_frames(old(self)),
                self.hhdm() == old(self).hhdm(),
                self.slab_classes() == old(self).slab_classes(),
            decreases end - i,
        {
            let ghost prev = *self;
            assert(self.frames()[i as int].wf() && self.frames()[i as int].peeked());
            self.table[i].unpeek();
            assert(self.frames().len() == prev.frames().len());
            assert(self.is_locked(i as int) == prev.is_locked(i as int));
            assert forall|j: int| 0 <= j < self.frame_count() implies #[trigger] self.is_locked(j)
                == old(self).is_locked(j) && self.type_of(j) == old(self).type_of(j) by {
                assert(prev.is_locked(j) == old(self).is_locked(j));
            }
            assert forall|j: int| 0 <= j < self.frames().len() implies #[trigger] self.frames()[j].wf()
                && (self.frames()[j].peeked() <==> i + 1 <= j < end) by {
                assert(prev.frames()[j].wf());
                assert(prev.frames()[j].peeked() <==> i <= j < end);
            }
            i += 1;
        }
    }

    /// Locks and releases frames `start .. end`, all of which are unlocked.
    fn lock_unpeek_range(&mut self, start: usize, end: usize)
        requires
            old(self).latched(start as int, end as int),
            forall|j: int| start <= j < end ==> !#[trigger] old(self).is_locked(j),
        ensures
            final(self).table_wf(),
            old(self).claims(final(self), start as int, end - start),
            final(self).hhdm() == old(self).hhdm(),
            final(self).slab_classes() == old(self).slab_classes(),
    {
        let mut i = start;
        while i < end
            invariant
                start <= i <= end <= self.frames().len(),
                self.latched(i as int, end as int),
                self.frame_count() == old(self).frame_count(),
                forall|j: int| 0 <= j < self.frame_count() ==> #[trigger] self.type_of(j) == old(self).type_of(j),
                forall|j: int| start <= j < end ==> !#[trigger] old(self).is_locked(j),
                forall|j: int| start <= j < i ==> #[trigger] self.is_locked(j),
                forall|j: int| 0 <= j < self.frame_count() && !(start <= j < i) ==> #[trigger] self.is_locked(j)
                    == old(self).is_locked(j),
                self.hhdm() == old(self).hhdm(),
                self.slab_classes() == old(self).slab_classes(),
            decreases end - i,
        {
            let ghost prev = *self;
            assert(self.frames()[i as int].wf() && self.frames()[i as int].peeked());
            assert(self.is_locked(i as int) == old(self).is_locked(i as int));
            assert(!old(self).is_locked(i as int));
            self.table[i].lock();
            self.table[i].unpeek();
            assert forall|j: int| 0 <= j < self.frame_count() implies #[trigger] self.type_of(j)
                == old(self).type_of(j) by {
                assert(prev.type_of(j) == old(self).type_of(j));
            }
            assert forall|j: int| 0 <= j < self.frame_count() && j != i implies #[trigger] self.is_locked(j)
                == prev.is_locked(j) by {
                assert(self.frames()[j] == prev.frames()[j]);
            }
            assert forall|j: int| 0 <= j < self.frames().len() implies #[trigger] self.frames()[j].wf()
                && (self.frames()[j].peeked() <==> i + 1 <= j < end) by {
                assert(prev.frames()[j].wf());
                assert(prev.frames()[j].peeked() <==> i <= j < end);
            }
            i += 1;
        }
    }

    /// Claims the lowest run of `count` available frames whose first frame
    /// number is a multiple of the alignment counted in frames, and returns
    /// the physical address of its first frame. A window is latched whole
    /// before it is judged, and on a blocked frame the search resumes at the
    /// first aligned start past the last blocked frame of the window.
    pub fn lock_next_many(&mut self, count: usize, alignment: usize) -> (r: Result<usize, AllocError>)
        requires
            old(self).wf(),
            count > 0,
        ensures
            final(self).wf(),
            final(self).hhdm() == old(self).hhdm(),
            final(self).slab_classes() == old(self).slab_classes(),
            r is Ok <==> exists|s: int| old(self).eligible(s, count as int, frame_alignment(alignment as int)),
            r matches Ok(addr) ==> addr % PAGE_SIZE == 0,
            r matches Ok(addr) ==> old(self).first_eligible(
                (addr / PAGE_SIZE) as int,
                count as int,
                frame_alignment(alignment as int),
            ),
            r matches Ok(addr) ==> old(self).claims(final(self), (addr / PAGE_SIZE) as int, count as int),
            r is Err ==> final(self).same_frames(old(self)),
    {
        let step: usize = if alignment / PAGE_SIZE == 0 {
            1
        } else {
            alignment / PAGE_SIZE
        };
        let ghost fa = step as int;
        let len = self.table.len();
        let mut start: usize = 0;
        while count <= len && start <= len - count
            invariant
                fa == frame_alignment(alignment as int),
                fa > 0,
                step as int == fa,
                len == self.frames().len(),
                count > 0,
                start as int % fa == 0,
                self.table_wf(),
                old(self).wf(),
                self.same_frames(old(self)),
                self.hhdm() == old(self).hhdm(),
                self.slab_classes() == old(self).slab_classes(),
                forall|s: int| 0 <= s < start ==> !#[trigger] old(self).eligible(s, count as int, fa),
            decreases len - start,
        {
            let end = start + count;
            let ghost unlatched = *self;
            self.peek_range(start, end);
            proof {
                lemma_same_frames_trans(self, &unlatched, old(self));
            }
            // Look for the last blocked frame of the window.
            let mut k: usize = count;
            let mut blocked: Option<usize> = None;
            while k > 0
                invariant_except_break
                    blocked is None,
                    forall|j: int| start + k <= j < end ==> #[trigger] old(self).is_available(j),
                invariant
                    k <= count,
                    end == start + count <= len == self.frames().len(),
                    self.latched(start as int, end as int),
                    self.same_frames(old(self)),
                ensures
                    blocked is None ==> k == 0 && forall|j: int|
                        start <= j < end ==> #[trigger] old(self).is_available(j),
                    blocked matches Some(b) ==> b < count && !old(self).is_available(start + b),
                decreases k,
            {
                k -= 1;
                let (locked, ty) = self.table[start + k].data();
                assert(self.is_locked(start + k) == old(self).is_locked(start + k));
                if locked || ty != FrameType::Generic {
                    blocked = Some(k);
                    break;
                }
            }
            match blocked {
                Some(b) => {
                    assert(!old(self).is_available(start + b));
                    let ghost latched_state = *self;
                    self.unpeek_range(start, end);
                    proof {
                        lemma_same_frames_trans(self, &latched_state, old(self));
                    }
                    let next = start + b + 1;
                    let rem = next % step;
                    assert forall|s: int| 0 <= s <= start + b implies !#[trigger] old(self).eligible(
                        s,
                        count as int,
                        fa,
                    ) by {
                        if s >= start && old(self).eligible(s, count as int, fa) {
                            assert(old(self).is_available(start + b));
                        }
                    }
                    if rem == 0 {
                        start = next;
                    } else {
                        let gap = step - rem;
                        if gap > len - next {
                            assert forall|s: int| 0 <= s implies !#[trigger] old(self).eligible(
                                s,
                                count as int,
                                fa,
                            ) by {
                                if next <= s && s % fa == 0 {
                                    lemma_align_up_least(next as int, fa, s);
                                }
                            }
                            proof {
                                lemma_wf_after_same(old(self), self);
                            }
                            return Err(AllocError);
                        }
                        proof {
                            lemma_align_up(next as int, fa);
                            assert forall|s: int| 0 <= s < next + gap implies !#[trigger] old(
                                self,
                            ).eligible(s, count as int, fa) by {
                                if next <= s && s % fa == 0 {
                                    lemma_align_up_least(next as int, fa, s);
                                }
                            }
                        }
                        start = next + gap;
                    }
                },
                None => {
                    assert(k == 0);
                    assert forall|j: int| start <= j < end implies !#[trigger] self.is_locked(j) by {
                        assert(old(self).is_available(j));
                    }
                    let ghost latched_state = *self;
                    self.lock_unpeek_range(start, end);
                    proof {
                        lemma_claims_transfer(old(self), &latched_state, self, start as int, count as int);
                        lemma_wf_after_claims(old(self), self, start as int, count as int);
                        assert(old(self).eligible(start as int, count as int, fa));
                        lemma_frame_address(start as int, len as int);
                    }
                    return Ok(start * PAGE_SIZE);
                },
            }
        }
        assert forall|s: int| 0 <= s implies !#[trigger] old(self).eligible(s, count as int, fa) by {
            if s >= start {
                assert(!old(self).window_available(s, count as int));
            }
        }
        proof {
            lemma_wf_after_same(old(self), self);
        }
        Err(AllocError)
    }

    /// Going from `self` to `after` released frame `index`: it is now
    /// unlocked, with its type kept, and nothing else changed.
    pub open spec fn releases(&self, after: &SlabAllocator, index: int) -> bool {
        &&& 0 <= index < self.frame_count()
        &&& after.frame_count() == self.frame_count()
        &&& forall|i: int| 0 <= i < self.frame_count() ==> #[trigger] after.type_of(i) == self.type_of(i)
        &&& !after.is_locked(index)
        &&& forall|i: int| 0 <= i < self.frame_count() && i != index ==> #[trigger] after.is_locked(i)
            == self.is_locked(i)
    }

    /// Unlocks and releases frame `index`, which is latched and locked.
    fn free_unpeek(&mut self, index: usize)
        requires
            old(self).latched(index as int, index + 1),
            old(self).is_locked(index as int),
        ensures
            final(self).table_wf(),
            old(self).releases(final(self), index as int),
            final(self).hhdm() == old(self).hhdm(),
            final(self).slab_classes() == old(self).slab_classes(),
    {
        self.table[index].free();
        self.table[index].unpeek();
        assert forall|j: int| 0 <= j < self.frame_count() && j != index implies #[trigger] self.is_locked(j)
            == old(self).is_locked(j) && self.type_of(j) == old(self).type_of(j) && self.frames()[j].wf()
            && !self.frames()[j].peeked() by {
            assert(self.frames()[j] == old(self).frames()[j]);
        }
        assert forall|j: int| 0 <= j < self.frame_count() implies #[trigger] self.type_of(j) == old(
            self,
        ).type_of(j) by {
            if j != index {
                assert(self.frames()[j] == old(self).frames()[j]);
            }
        }
    }

    /// Claims the frame at physical address `frame`, whatever its type.
    pub fn lock(&mut self, frame: usize) -> (r: Result<(), AllocError>)
        requires
            old(self).wf(),
        ensures
            final(self).wf(),
            final(self).hhdm() == old(self).hhdm(),
            final(self).slab_classes() == old(self).slab_classes(),
            r is Ok <==> frame / PAGE_SIZE < old(self).frame_count() && !old(self).is_locked(
                (frame / PAGE_SIZE) as int,
            ),
            r is Ok ==> old(self).claims(final(self), (frame / PAGE_SIZE) as int, 1),
            r is Err ==> final(self).same_frames(old(self)),
    {
        let index = frame / PAGE_SIZE;
        if index >= self.table.len() {
            return Err(AllocError);
        }
        self.peek_range(index, index + 1);
        let (locked, _) = self.table[index].data();
        assert(self.is_locked(index as int) == old(self).is_locked(index as int));
        let ghost latched_state = *self;
        if !locked {
            self.lock_unpeek_range(index, index + 1);
            proof {
                lemma_claims_transfer(old(self), &latched_state, self, index as int, 1);
                lemma_wf_after_claims(old(self), self, index as int, 1);
            }
            Ok(())
        } else {
            self.unpeek_range(index, index + 1);
            proof {
                lemma_same_frames_trans(self, &latched_state, old(self));
                lemma_wf_after_same(old(self), self);
            }
            Err(AllocError)
        }
    }

    /// Claims the `count` frames from physical address `base` on, all or
    /// none: the whole run is latched and checked before any frame is locked.
    pub fn lock_many(&mut self, base: usize, count: usize) -> (r: Result<(), AllocError>)
        requires
            old(self).wf(),
        ensures
            final(self).wf(),
            final(self).hhdm() == old(self).hhdm(),
            final(self).slab_classes() == old(self).slab_classes(),
            r is Ok <==> base / PAGE_SIZE + count <= old(self).frame_count() && forall|j: int|
                (base / PAGE_SIZE) as int <= j < base / PAGE_SIZE + count ==> !#[trigger] old(
                    self,
                ).is_locked(j),
            r is Ok ==> old(self).claims(final(self), (base / PAGE_SIZE) as int, count as int),
            r is Err ==> final(self).same_frames(old(self)),
    {
        let index = base / PAGE_SIZE;
        let len = self.table.len();
        if index > len || count > len - index {
            return Err(AllocError);
        }
        let end = index + count;
        self.peek_range(index, end);
        let mut i = index;
        let mut all_free = true;
        while i < end
            invariant_except_break
                all_free,
                forall|j: int| index <= j < i ==> !#[trigger] old(self).is_locked(j),
            invariant
                index <= i <= end <= len == self.frames().len(),
                self.latched(index as int, end as int),
                self.same_frames(old(self)),
            ensures
                all_free ==> forall|j: int| index <= j < end ==> !#[trigger] old(self).is_locked(j),
                !all_free ==> index <= i < end && old(self).is_locked(i as int),
            decreases end - i,
        {
            let (locked, _) = self.table[i].data();
            assert(self.is_locked(i as int) == old(self).is_locked(i as int));
            if locked {
                all_free = false;
                break;
            }
            i += 1;
        }
        let ghost latched_state = *self;
        if all_free {
            assert forall|j: int| index <= j < end implies !#[trigger] self.is_locked(j) by {
                assert(self.is_locked(j) == old(self).is_locked(j));
            }
            self.lock_unpeek_range(index, end);
            proof {
                lemma_claims_transfer(old(self), &latched_state, self, index as int, count as int);
                lemma_wf_after_claims(old(self), self, index as int, count as int);
            }
            Ok(())
        } else {
            self.unpeek_range(index, end);
            proof {
                lemma_same_frames_trans(self, &latched_state, old(self));
                lemma_wf_after_same(old(self), self);
            }
            Err(AllocError)
        }
    }

    /// Releases the frame at physical address `frame`, which must be locked.
    /// A slab kept in that frame is dropped from its class.
    pub fn free(&mut self, frame: usize) -> (r: Result<(), AllocError>)
        requires
            old(self).wf(),
        ensures
            final(self).wf(),
            final(self).hhdm() == old(self).hhdm(),
            r is Ok <==> frame / PAGE_SIZE < old(self).frame_count() && old(self).is_locked(
                (frame / PAGE_SIZE) as int,
            ),
            r is Ok ==> old(self).releases(final(self), (frame / PAGE_SIZE) as int),
            r is Ok ==> forall|c: int, k: int|
                #![trigger old(self).class_slabs(c)[k]]
                0 <= c < CLASS_COUNT && 0 <= k < old(self).class_slabs(c).len() && old(self).class_slabs(c)[k].frame
                    == frame / PAGE_SIZE ==> final(self).class_slabs(c) == old(self).class_slabs(c).remove(k)
                    && forall|d: int|
                    0 <= d < CLASS_COUNT && d != c ==> #[trigger] final(self).class_slabs(d) == old(self).class_slabs(d),
            r is Ok && !old(self).is_slab_frame((frame / PAGE_SIZE) as int) ==> final(self).slab_classes()
                == old(self).slab_classes(),
            r is Err ==> final(self).same_frames(old(self)) && final(self).slab_classes() == old(self).slab_classes(),
    {
        let index = frame / PAGE_SIZE;
        if index >= self.table.len() {
            return Err(AllocError);
        }
        let owner = self.find_slab(index);
        self.peek_range(index, index + 1);
        let (locked, _) = self.table[index].data();
        assert(self.is_locked(index as int) == old(self).is_locked(index as int));
        let ghost latched_state = *self;
        if locked {
            self.free_unpeek(index);
            proof {
                assert forall|i: int| 0 <= i < old(self).frame_count() implies #[trigger] self.type_of(i)
                    == old(self).type_of(i) && (i != index ==> self.is_locked(i) == old(self).is_locked(i)) by {
                    assert(latched_state.is_locked(i) == old(self).is_locked(i));
                    assert(latched_state.type_of(i) == self.type_of(i));
                    if i != index {
                        assert(self.is_locked(i) == latched_state.is_locked(i));
                    }
                }
                assert forall|i: int| 0 <= i < old(self).frame_count() && i != index implies #[trigger] self.is_locked(i)
                    == old(self).is_locked(i) by {
                    assert(self.type_of(i) == old(self).type_of(i));
                }
                assert(old(self).releases(self, index as int));
            }
            match owner {
                Some((c, k)) => {
                    let ghost released = *self;
                    self.forget_slab(c, k);
                    proof {
                        assert(self.frames() == released.frames());
                        assert(!self.is_locked(index as int));
                        assert forall|i: int| 0 <= i < old(self).frame_count() implies #[trigger] self.type_of(i)
                            == old(self).type_of(i) by {
                            assert(released.type_of(i) == old(self).type_of(i));
                        }
                        assert forall|i: int| 0 <= i < old(self).frame_count() && i != index implies #[trigger] self.is_locked(i)
                            == old(self).is_locked(i) by {
                            assert(released.is_locked(i) == old(self).is_locked(i));
                        }
                        assert(old(self).releases(self, index as int));
                        lemma_wf_after_slab_release(old(self), self, index as int, c as int, k as int);
                        assert forall|c2: int, k2: int|
                            #![trigger old(self).class_slabs(c2)[k2]]
                            0 <= c2 < CLASS_COUNT && 0 <= k2 < old(self).class_slabs(c2).len() && old(
                                self,
                            ).class_slabs(c2)[k2].frame == index implies c2 == c && k2 == k by {
                            if c2 != c || k2 != k {
                                assert(old(self).class_slabs(c2)[k2].frame != old(self).class_slabs(
                                    c as int,
                                )[k as int].frame);
                            }
                        }
                    }
                },
                None => {
                    proof {
                        lemma_wf_after_release(old(self), self, index as int);
                    }
                },
            }
            Ok(())
        } else {
            self.unpeek_range(index, index + 1);
            proof {
                lemma_same_frames_trans(self, &latched_state, old(self));
                lemma_wf_after_same(old(self), self);
            }
            Err(AllocError)
        }
    }


    /// Claims the `count` frames from physical address `frame` on, as
    /// `lock_many` does, and returns the direct-map address of the first.
    pub fn allocate_to(&mut self, frame: usize, count: usize) -> (r: Result<usize, AllocError>)
        requires
            old(self).wf(),
        ensures
            final(self).wf(),
            final(self).hhdm() == old(self).hhdm(),
            final(self).slab_classes() == old(self).slab_classes(),
            r is Ok <==> frame / PAGE_SIZE + count <= old(self).frame_count() && forall|j: int|
                (frame / PAGE_SIZE) as int <= j < frame / PAGE_SIZE + count ==> !#[trigger] old(
                    self,
                ).is_locked(j),
            r matches Ok(v) ==> v == old(self).hhdm() + (frame / PAGE_SIZE) * PAGE_SIZE,
            r is Ok ==> old(self).claims(final(self), (frame / PAGE_SIZE) as int, count as int),
            r is Err ==> final(self).same_frames(old(self)),
    {
        match self.lock_many(frame, count) {
            Ok(()) => {
                let index = frame / PAGE_SIZE;
                proof {
                    let len = self.frame_count() as int;
                    assert(index * PAGE_SIZE <= len * PAGE_SIZE) by (nonlinear_arith)
                        requires index <= len;
                }
                Ok(self.phys_mapped_address + index * PAGE_SIZE)
            },
            Err(e) => Err(e),
        }
    }

    /// Bytes of physical memory the table covers.
    pub fn total_memory(&self) -> (r: usize)
        requires
            self.wf(),
        ensures
            r == self.frame_count() * PAGE_SIZE,
    {
        self.table.len() * PAGE_SIZE
    }

    /// The `locked` bit and type of frame `index`, read under its latch.
    pub fn frame_state(&mut self, index: usize) -> (r: Option<(bool, FrameType)>)
        requires
            old(self).wf(),
        ensures
            final(self).wf(),
            final(self).same_frames(old(self)),
            final(self).hhdm() == old(self).hhdm(),
            final(self).slab_classes() == old(self).slab_classes(),
            r == if index < old(self).frame_count() {
                Some((old(self).is_locked(index as int), old(self).type_of(index as int)))
            } else {
                None::<(bool, FrameType)>
            },
    {
        if index >= self.table.len() {
            return None;
        }
        self.peek_range(index, index + 1);
        let state = self.table[index].data();
        assert(self.is_locked(index as int) == old(self).is_locked(index as int));
        let ghost latched_state = *self;
        self.unpeek_range(index, index + 1);
        proof {
            lemma_same_frames_trans(self, &latched_state, old(self));
            lemma_wf_after_same(old(self), self);
        }
        Some(state)
    }
}

/// Claims never overlap: a frame claimed by one call stays locked, so a
/// later call cannot claim it again before it is freed. This holds for every
/// pair among `lock_next`, `lock_next_many`, `lock`, `lock_many` and
/// `allocate_to`, whose successful results are claims.
pub proof fn lemma_claims_disjoint(
    s0: &SlabAllocator,
    s1: &SlabAllocator,
    s2: &SlabAllocator,
    first: int,
    first_count: int,
    second: int,
    second_count: int,
)
    requires
        s0.claims(s1, first, first_count),
        s1.claims(s2, second, second_count),
        first_count > 0,
        second_count > 0,
    ensures
        first + first_count <= second || second + second_count <= first,
{
    if !(first + first_count <= second || second + second_count <= first) {
        let i = if first <= second {
            second
        } else {
            first
        };
        assert(s1.is_locked(i));
        assert(!s1.is_locked(i));
    }
}

/// A run found by `lock_next_many` for a power-of-two alignment starts at a
/// physical address that is a multiple of that alignment.
pub proof fn lemma_run_address_aligned(
    s: &SlabAllocator,
    addr: int,
    count: int,
    alignment: int,
    exponent: nat,
)
    requires
        alignment == pow2(exponent),
        addr >= 0,
        addr % PAGE_SIZE as int == 0,
        s.first_eligible(addr / PAGE_SIZE as int, count, frame_alignment(alignment)),
    ensures
        addr % alignment == 0,
{
    let start = addr / 4096;
    assert(addr == start * 4096) by (nonlinear_arith)
        requires start == addr / 4096, addr % 4096 == 0;
    lemma2_to64();
    lemma_pow2_pos(exponent);
    if exponent >= 12 {
        let rest = (exponent - 12) as nat;
        lemma_pow2_adds(12, rest);
        lemma_pow2_pos(rest);
        let m = pow2(rest) as int;
        assert(alignment == 4096 * m);
        assert(alignment / 4096 == m) by (nonlinear_arith)
            requires alignment == 4096 * m;
        assert(frame_alignment(alignment) == m);
        let q = start / m;
        assert(start == m * q) by (nonlinear_arith)
            requires q == start / m, start % m == 0, m > 0;
        assert(addr == alignment * q) by (nonlinear_arith)
            requires addr == start * 4096, start == m * q, alignment == 4096 * m;
        assert((alignment * q) % alignment == 0) by (nonlinear_arith)
            requires alignment > 0;
    } else {
        let rest = (12 - exponent) as nat;
        lemma_pow2_adds(exponent, rest);
        let m = pow2(rest) as int;
        assert(4096 == alignment * m);
        assert(addr == alignment * (start * m)) by (nonlinear_arith)
            requires addr == start * 4096, 4096 == alignment * m;
        assert((alignment * (start * m)) % alignment == 0) by (nonlinear_arith)
            requires alignment > 0;
    }
}

/// Locking a frame and then freeing it leaves every frame's `locked` bit and
/// type as before the lock, and the frame can be locked again.
pub proof fn lemma_lock_free_round_trip(
    s0: &SlabAllocator,
    s1: &SlabAllocator,
    s2: &SlabAllocator,
    index: int,
)
    requires
        s0.claims(s1, index, 1),
        s1.releases(s2, index),
    ensures
        s2.same_frames(s0),
        index < s2.frame_count() && !s2.is_locked(index),
{
    assert forall|i: int| 0 <= i < s2.frame_count() implies #[trigger] s2.is_locked(i) == s0.is_locked(i)
        && s2.type_of(i) == s0.type_of(i) by {
        assert(s1.type_of(i) == s0.type_of(i));
        if i != index {
            assert(s1.is_locked(i) == s0.is_locked(i));
        } else {
            assert(!s0.is_locked(i));
        }
    }
}

/// The frame `lock_next` hands out is `Generic`.
pub proof fn lemma_next_is_generic(s: &SlabAllocator, index: int)
    requires
        s.first_available(index),
    ensures
        s.type_of(index) == FrameType::Generic,
{
}

/// Every frame of a run that `lock_next_many` hands out is `Generic`.
pub proof fn lemma_run_is_generic(s: &SlabAllocator, start: int, count: int, frame_alignment: int)
    requires
        s.first_eligible(start, count, frame_alignment),
    ensures
        forall|i: int| start <= i < start + count ==> #[trigger] s.type_of(i) == FrameType::Generic,
{
    assert forall|i: int| start <= i < start + count implies #[trigger] s.type_of(i) == FrameType::Generic by {
        assert(s.is_available(i));
    }
}

} // verus!
