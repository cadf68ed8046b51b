//! A bootstrap allocator that hands out virtual memory from a cursor that only
//! moves up, taking one physical frame for each page it passes.

use crate::pmm::PAGE_SIZE;
use crate::slab::{lemma_slab_frame_locked, lemma_slab_frames_same, AllocError, SlabAllocator};
use vstd::prelude::*;

verus! {

/// Some entry of `frames` is the address of frame `i`.
pub open spec fn holds_frame(frames: Seq<usize>, i: int) -> bool {
    exists|k: int| 0 <= k < frames.len() && #[trigger] frames[k] as int / PAGE_SIZE as int == i
}

/// Going from `before` to `after`, exactly the frames at the addresses in
/// `frames` were claimed: each was available, and the addresses are frame
/// aligned and rise strictly.
pub open spec fn claims_frames(before: &SlabAllocator, after: &SlabAllocator, frames: Seq<usize>) -> bool {
    &&& after.frame_count() == before.frame_count()
    &&& forall|k: int|
        #![trigger frames[k]]
        0 <= k < frames.len() ==> frames[k] % PAGE_SIZE == 0 && before.is_available(
            frames[k] as int / PAGE_SIZE as int,
        )
    &&& forall|k: int, l: int| 0 <= k < l < frames.len() ==> #[trigger] frames[k] < #[trigger] frames[l]
    &&& forall|i: int| 0 <= i < before.frame_count() ==> #[trigger] after.type_of(i) == before.type_of(i)
    &&& forall|i: int|
        #![trigger after.is_locked(i)]
        0 <= i < before.frame_count() ==> after.is_locked(i) == (before.is_locked(i) || holds_frame(
            frames,
            i,
        ))
}

/// Going from `before` to `after` took frame `frame`, the lowest available
/// one, on top of the frames `prev` already taken since `origin`.
proof fn lemma_take_next(
    origin: &SlabAllocator,
    before: &SlabAllocator,
    after: &SlabAllocator,
    prev: Seq<usize>,
    frame: usize,
)
    requires
        claims_frames(origin, before, prev),
        forall|k: int, i: int|
            #![trigger prev[k], before.is_available(i)]
            0 <= k < prev.len() && before.is_available(i) ==> (prev[k] as int / PAGE_SIZE as int) < i,
        frame % PAGE_SIZE == 0,
        before.first_available(frame as int / PAGE_SIZE as int),
        before.claims(after, frame as int / PAGE_SIZE as int, 1),
    ensures
        claims_frames(origin, after, prev.push(frame)),
        forall|k: int, i: int|
            #![trigger prev.push(frame)[k], after.is_available(i)]
            0 <= k < prev.len() + 1 && after.is_available(i) ==> (prev.push(frame)[k] as int
                / PAGE_SIZE as int) < i,
{
    let f = frame as int / PAGE_SIZE as int;
    let next = prev.push(frame);
    assert(before.is_locked(f) == (origin.is_locked(f) || holds_frame(prev, f)));
    assert(!holds_frame(prev, f)) by {
        if holds_frame(prev, f) {
            let k = choose|k: int| 0 <= k < prev.len() && #[trigger] prev[k] as int / PAGE_SIZE as int == f;
            assert((prev[k] as int / PAGE_SIZE as int) < f);
        }
    }
    assert(before.type_of(f) == origin.type_of(f));
    assert(origin.is_available(f));
    assert forall|k: int| #![trigger next[k]] 0 <= k < next.len() implies next[k] % PAGE_SIZE == 0
        && origin.is_available(next[k] as int / PAGE_SIZE as int) by {
        if k < prev.len() {
            assert(next[k] == prev[k]);
        }
    }
    assert forall|k: int, l: int| 0 <= k < l < next.len() implies #[trigger] next[k] < #[trigger] next[l] by {
        if l < prev.len() {
            assert(next[k] == prev[k] && next[l] == prev[l]);
        } else {
            assert(next[k] == prev[k]);
            assert((prev[k] as int / PAGE_SIZE as int) < f);
            assert(prev[k] < frame) by (nonlinear_arith)
                requires (prev[k] as int / 4096) < frame as int / 4096;
        }
    }
    assert forall|i: int| 0 <= i < origin.frame_count() implies #[trigger] after.type_of(i) == origin.type_of(i)
        by {
        assert(before.type_of(i) == origin.type_of(i));
    }
    assert forall|i: int|
        #![trigger after.is_locked(i)]
        0 <= i < origin.frame_count() implies after.is_locked(i) == (origin.is_locked(i) || holds_frame(next, i)) by {
        assert(before.is_locked(i) == (origin.is_locked(i) || holds_frame(prev, i)));
        if holds_frame(prev, i) {
            let k = choose|k: int| 0 <= k < prev.len() && #[trigger] prev[k] as int / PAGE_SIZE as int == i;
            assert(next[k] == prev[k]);
        }
        if holds_frame(next, i) {
            let k = choose|k: int| 0 <= k < next.len() && #[trigger] next[k] as int / PAGE_SIZE as int == i;
            if k < prev.len() {
                assert(next[k] == prev[k]);
            }
        }
        if i == f {
            assert(next[prev.len() as int] == frame);
        }
    }
    assert forall|k: int, i: int|
        #![trigger next[k], after.is_available(i)]
        0 <= k < next.len() && after.is_available(i) implies (next[k] as int / PAGE_SIZE as int) < i by {
        assert(after.type_of(i) == before.type_of(i));
        if i != f {
            assert(after.is_locked(i) == before.is_locked(i));
        }
        assert(before.is_available(i));
        if k < prev.len() {
            assert(next[k] == prev[k]);
        }
    }
}

/// Frees the frames at the addresses in `frames`, each of them locked.
fn release_all(pmm: &mut SlabAllocator, frames: &Vec<usize>)
    requires
        old(pmm).wf(),
        forall|k: int|
            #![trigger frames@[k]]
            0 <= k < frames@.len() ==> frames@[k] % PAGE_SIZE == 0 && frames@[k] / PAGE_SIZE
                < old(pmm).frame_count() && old(pmm).is_locked(frames@[k] as int / PAGE_SIZE as int),
        forall|k: int, l: int| 0 <= k < l < frames@.len() ==> #[trigger] frames@[k] < #[trigger] frames@[l],
        forall|k: int|
            #![trigger frames@[k]]
            0 <= k < frames@.len() ==> !old(pmm).is_slab_frame(frames@[k] as int / PAGE_SIZE as int),
    ensures
        final(pmm).wf(),
        final(pmm).hhdm() == old(pmm).hhdm(),
        final(pmm).slab_classes() == old(pmm).slab_classes(),
        final(pmm).frame_count() == old(pmm).frame_count(),
        forall|i: int| 0 <= i < old(pmm).frame_count() ==> #[trigger] final(pmm).type_of(i) == old(pmm).type_of(i),
        forall|i: int|
            #![trigger final(pmm).is_locked(i)]
            0 <= i < old(pmm).frame_count() ==> final(pmm).is_locked(i) == (old(pmm).is_locked(i)
                && !holds_frame(frames@, i)),
{
    let mut k: usize = 0;
    while k < frames.len()
        invariant
            k <= frames@.len(),
            pmm.wf(),
            pmm.hhdm() == old(pmm).hhdm(),
            pmm.slab_classes() == old(pmm).slab_classes(),
            pmm.frame_count() == old(pmm).frame_count(),
            forall|j: int|
                #![trigger frames@[j]]
                0 <= j < frames@.len() ==> frames@[j] % PAGE_SIZE == 0 && frames@[j] / PAGE_SIZE
                    < old(pmm).frame_count() && old(pmm).is_locked(frames@[j] as int / PAGE_SIZE as int),
            forall|j: int, l: int| 0 <= j < l < frames@.len() ==> #[trigger] frames@[j] < #[trigger] frames@[l],
            forall|j: int|
                #![trigger frames@[j]]
                0 <= j < frames@.len() ==> !old(pmm).is_slab_frame(frames@[j] as int / PAGE_SIZE as int),
            pmm.slab_classes() == old(pmm).slab_classes(),
            forall|i: int| 0 <= i < old(pmm).frame_count() ==> #[trigger] pmm.type_of(i) == old(pmm).type_of(i),
            forall|i: int|
                #![trigger pmm.is_locked(i)]
                0 <= i < old(pmm).frame_count() ==> pmm.is_locked(i) == (old(pmm).is_locked(i)
                    && !holds_frame(frames@.take(k as int), i)),
        decreases frames@.len() - k,
    {
        let ghost before = *pmm;
        let frame = frames[k];
        let ghost f = frame as int / PAGE_SIZE as int;
        assert(!holds_frame(frames@.take(k as int), f)) by {
            if holds_frame(frames@.take(k as int), f) {
                let j = choose|j: int| 0 <= j < k && #[trigger] frames@.take(k as int)[j] as int / PAGE_SIZE as int == f;
                assert(frames@[j] < frames@[k as int]);
                assert(frames@[j] == frames@.take(k as int)[j]);
                assert(frames@[j] / 4096 == frames@[k as int] / 4096);
                assert(frames@[j] == frames@[k as int]) by (nonlinear_arith)
                    requires
                        frames@[j] / 4096 == frames@[k as int] / 4096,
                        frames@[j] % 4096 == 0,
                        frames@[k as int] % 4096 == 0,
                ;
            }
        }
        assert(before.is_locked(f));
        proof {
            lemma_slab_frames_same(&before, old(pmm));
            assert(!before.is_slab_frame(f));
        }
        let res = pmm.free(frame);
        assert(res is Ok);
        assert forall|i: int| 0 <= i < old(pmm).frame_count() implies #[trigger] pmm.type_of(i) == old(pmm).type_of(i)
            by {
            assert(before.type_of(i) == old(pmm).type_of(i));
        }
        assert forall|i: int|
            #![trigger pmm.is_locked(i)]
            0 <= i < old(pmm).frame_count() implies pmm.is_locked(i) == (old(pmm).is_locked(i)
                && !holds_frame(frames@.take(k + 1), i)) by {
            assert(before.is_locked(i) == (old(pmm).is_locked(i) && !holds_frame(frames@.take(k as int), i)));
            if holds_frame(frames@.take(k as int), i) {
                let j = choose|j: int| 0 <= j < k && #[trigger] frames@.take(k as int)[j] as int / PAGE_SIZE as int == i;
                assert(frames@.take(k + 1)[j] == frames@.take(k as int)[j]);
            }
            if holds_frame(frames@.take(k + 1), i) {
                let j = choose|j: int| 0 <= j < k + 1 && #[trigger] frames@.take(k + 1)[j] as int / PAGE_SIZE as int == i;
                if j < k {
                    assert(frames@.take(k + 1)[j] == frames@.take(k as int)[j]);
                }
            }
            if i == f {
                assert(frames@.take(k + 1)[k as int] == frame);
            }
        }
        k += 1;
    }
    assert(frames@.take(frames@.len() as int) == frames@);
}

/// The number of available frames below frame `n`.
pub open spec fn available_below(s: &SlabAllocator, n: int) -> nat
    decreases n,
{
    if n <= 0 {
        0
    } else {
        available_below(s, n - 1) + if s.is_available(n - 1) {
            1nat
        } else {
            0nat
        }
    }
}

/// Frame-aligned addresses that rise strictly.
pub open spec fn rising_frames(frames: Seq<usize>) -> bool {
    &&& forall|k: int| #![trigger frames[k]] 0 <= k < frames.len() ==> frames[k] % PAGE_SIZE == 0
    &&& forall|k: int, l: int| 0 <= k < l < frames.len() ==> #[trigger] frames[k] < #[trigger] frames[l]
}

proof fn lemma_rising_frame_numbers(frames: Seq<usize>, k: int, l: int)
    requires
        rising_frames(frames),
        0 <= k < l < frames.len(),
    ensures
        (frames[k] as int / PAGE_SIZE as int) < frames[l] as int / PAGE_SIZE as int,
{
    let a = frames[k] as int;
    let b = frames[l] as int;
    assert(a < b);
    assert(a % 4096 == 0 && b % 4096 == 0);
    assert(a / 4096 < b / 4096) by (nonlinear_arith)
        requires a < b, a % 4096 == 0, b % 4096 == 0, 0 <= a;
}

/// Distinct available frames below `n` are at most as many as the available
/// frames below `n`.
proof fn lemma_count_at_least(s: &SlabAllocator, frames: Seq<usize>, n: int)
    requires
        rising_frames(frames),
        forall|k: int|
            #![trigger frames[k]]
            0 <= k < frames.len() ==> s.is_available(frames[k] as int / PAGE_SIZE as int) && (frames[k] as int
                / PAGE_SIZE as int) < n,
    ensures
        available_below(s, n) >= frames.len(),
    decreases n,
{
    if frames.len() == 0 {
        return;
    }
    let last = frames.len() - 1;
    let l = frames[last] as int / PAGE_SIZE as int;
    let rest = frames.drop_last();
    assert forall|k: int| #![trigger rest[k]] 0 <= k < rest.len() implies (rest[k] as int / PAGE_SIZE as int) < l by {
        assert(rest[k] == frames[k]);
        lemma_rising_frame_numbers(frames, k, last);
    }
    if l == n - 1 {
        assert forall|k: int|
            #![trigger rest[k]]
            0 <= k < rest.len() implies s.is_available(rest[k] as int / PAGE_SIZE as int) && (rest[k] as int
                / PAGE_SIZE as int) < n - 1 by {
            assert(rest[k] == frames[k]);
        }
        assert forall|k: int, j: int| 0 <= k < j < rest.len() implies #[trigger] rest[k] < #[trigger] rest[j] by {
            assert(rest[k] == frames[k] && rest[j] == frames[j]);
        }
        assert forall|k: int| #![trigger rest[k]] 0 <= k < rest.len() implies rest[k] % PAGE_SIZE == 0 by {
            assert(rest[k] == frames[k]);
        }
        lemma_count_at_least(s, rest, n - 1);
    } else {
        lemma_count_at_least(s, frames, n - 1);
    }
}

/// When every available frame below `n` is among `frames`, the available
/// frames below `n` are at most as many as `frames`.
proof fn lemma_count_at_most(s: &SlabAllocator, frames: Seq<usize>, n: int)
    requires
        rising_frames(frames),
        forall|i: int| 0 <= i < n && #[trigger] s.is_available(i) ==> holds_frame(frames, i),
    ensures
        available_below(s, n) <= frames.len(),
    decreases n,
{
    if n <= 0 {
        return;
    }
    if !s.is_available(n - 1) {
        lemma_count_at_most(s, frames, n - 1);
        return;
    }
    assert(holds_frame(frames, n - 1));
    let k = choose|k: int| 0 <= k < frames.len() && #[trigger] frames[k] as int / PAGE_SIZE as int == n - 1;
    let rest = frames.remove(k);
    assert forall|j: int| #![trigger rest[j]] 0 <= j < rest.len() implies rest[j] == if j < k {
        frames[j]
    } else {
        frames[j + 1]
    } by {}
    assert forall|a: int, b: int| 0 <= a < b < rest.len() implies #[trigger] rest[a] < #[trigger] rest[b] by {
        let a0 = if a < k { a } else { a + 1 };
        let b0 = if b < k { b } else { b + 1 };
        assert(frames[a0] < frames[b0]);
    }
    assert forall|a: int| #![trigger rest[a]] 0 <= a < rest.len() implies rest[a] % PAGE_SIZE == 0 by {
        let a0 = if a < k { a } else { a + 1 };
        assert(frames[a0] % PAGE_SIZE == 0);
    }
    assert forall|i: int| 0 <= i < n - 1 && #[trigger] s.is_available(i) implies holds_frame(rest, i) by {
        let j = choose|j: int| 0 <= j < frames.len() && #[trigger] frames[j] as int / PAGE_SIZE as int == i;
        assert(j != k);
        if j < k {
            assert(rest[j] == frames[j]);
        } else {
            assert(rest[j - 1] == frames[j]);
        }
    }
    lemma_count_at_most(s, rest, n - 1);
}

/// Pages needed to hold `size` bytes.
pub open spec fn pages_for(size: int) -> int {
    (size + PAGE_SIZE - 1) / PAGE_SIZE as int
}

/// A cursor over virtual pages; nothing it hands out is ever taken back.
#[derive(Debug)]
pub struct BumpAllocator {
    bottom_page: usize,
}

impl BumpAllocator {
    /// The virtual address of the lowest page not yet handed out.
    pub closed spec fn cursor(&self) -> usize {
        self.bottom_page
    }

    /// Starts at the second page, so that no allocation sits at address zero.
    pub fn new() -> (r: BumpAllocator)
        ensures
            r.cursor() == PAGE_SIZE,
    {
        BumpAllocator { bottom_page: PAGE_SIZE }
    }

    /// The virtual address of the lowest page not yet handed out.
    pub fn bottom(&self) -> (r: usize)
        ensures
            r == self.cursor(),
    {
        self.bottom_page
    }

    /// Hands out `size` bytes at the cursor: takes one frame from `pmm` for
    /// each page from the cursor up to the end of the request rounded up to
    /// a page, and moves the cursor past them. Returns the old cursor and the
    /// frames to map, in page order. When a frame cannot be had, the frames
    /// already taken go back and nothing changes.
    pub fn allocate(&mut self, pmm: &mut SlabAllocator, size: usize) -> (r: Result<(usize, Vec<usize>), AllocError>)
        requires
            old(pmm).wf(),
        ensures
            final(pmm).wf(),
            final(pmm).hhdm() == old(pmm).hhdm(),
            final(pmm).slab_classes() == old(pmm).slab_classes(),
            match r {
                Ok((addr, frames)) => {
                    &&& addr == old(self).cursor()
                    &&& final(self).cursor() == old(self).cursor() + pages_for(size as int) * PAGE_SIZE
                    &&& frames@.len() == pages_for(size as int)
                    &&& claims_frames(old(pmm), final(pmm), frames@)
                },
                Err(_) => {
                    &&& final(self).cursor() == old(self).cursor()
                    &&& final(pmm).same_frames(old(pmm))
                },
            },
            r is Ok <==> old(self).cursor() + pages_for(size as int) * PAGE_SIZE <= usize::MAX
                && pages_for(size as int) <= available_below(old(pmm), old(pmm).frame_count() as int),
    {
        let pages = size / PAGE_SIZE + if size % PAGE_SIZE == 0 {
            0
        } else {
            1
        };
        assert(pages as int == pages_for(size as int)) by (nonlinear_arith)
            requires
                pages as int == size as int / 4096 + if size as int % 4096 == 0 {
                    0int
                } else {
                    1int
                },
        ;
        let bottom = self.bottom_page;
        if pages > (usize::MAX - bottom) / PAGE_SIZE {
            assert(pages * PAGE_SIZE > usize::MAX - bottom) by (nonlinear_arith)
                requires pages > (usize::MAX - bottom) as int / 4096, bottom <= usize::MAX;
            return Err(AllocError);
        }
        assert(pages * PAGE_SIZE <= usize::MAX - bottom) by (nonlinear_arith)
            requires pages <= (usize::MAX - bottom) as int / 4096;
        let mut frames: Vec<usize> = Vec::new();
        while frames.len() < pages
            invariant
                pages as int == pages_for(size as int),
                bottom == old(self).cursor(),
                *self == *old(self),
                pages * PAGE_SIZE <= usize::MAX - bottom,
                old(pmm).wf(),
                pmm.wf(),
                pmm.hhdm() == old(pmm).hhdm(),
                pmm.slab_classes() == old(pmm).slab_classes(),
                frames@.len() <= pages,
                claims_frames(old(pmm), pmm, frames@),
                forall|k: int, i: int|
                    #![trigger frames@[k], pmm.is_available(i)]
                    0 <= k < frames@.len() && pmm.is_available(i) ==> (frames@[k] as int / PAGE_SIZE as int) < i,
            decreases pages - frames@.len(),
        {
            let ghost before = *pmm;
            match pmm.lock_next() {
                Ok(frame) => {
                    let ghost prev = frames@;
                    frames.push(frame);
                    proof {
                        lemma_take_next(old(pmm), &before, pmm, prev, frame);
                    }
                },
                Err(_) => {
                    proof {
                        assert forall|i: int| 0 <= i < old(pmm).frame_count() && #[trigger] old(pmm).is_available(i)
                            implies holds_frame(frames@, i) by {
                            assert(before.type_of(i) == old(pmm).type_of(i));
                            assert(before.is_locked(i) == (old(pmm).is_locked(i) || holds_frame(frames@, i)));
                            assert(!before.is_available(i));
                        }
                        lemma_count_at_most(old(pmm), frames@, old(pmm).frame_count() as int);
                        assert forall|k: int|
                            #![trigger frames@[k]]
                            0 <= k < frames@.len() implies frames@[k] % PAGE_SIZE == 0 && frames@[k] / PAGE_SIZE
                                < pmm.frame_count() && pmm.is_locked(frames@[k] as int / PAGE_SIZE as int) by {
                            let i = frames@[k] as int / PAGE_SIZE as int;
                            assert(holds_frame(frames@, i));
                            assert(old(pmm).is_available(i));
                        }
                    }
                    proof {
                        lemma_slab_frames_same(pmm, old(pmm));
                        assert forall|k: int|
                            #![trigger frames@[k]]
                            0 <= k < frames@.len() implies !pmm.is_slab_frame(frames@[k] as int / PAGE_SIZE as int) by {
                            let i = frames@[k] as int / PAGE_SIZE as int;
                            assert(old(pmm).is_available(i));
                            if old(pmm).is_slab_frame(i) {
                                lemma_slab_frame_locked(old(pmm), i);
                            }
                        }
                    }
                    let ghost taken = *pmm;
                    release_all(pmm, &frames);
                    proof {
                        assert forall|i: int| 0 <= i < pmm.frame_count() implies #[trigger] pmm.is_locked(i)
                            == old(pmm).is_locked(i) && pmm.type_of(i) == old(pmm).type_of(i) by {
                            assert(taken.is_locked(i) == (old(pmm).is_locked(i) || holds_frame(frames@, i)));
                            assert(taken.type_of(i) == old(pmm).type_of(i));
                            if holds_frame(frames@, i) {
                                let k = choose|k: int| 0 <= k < frames@.len() && #[trigger] frames@[k] as int / PAGE_SIZE as int == i;
                                assert(old(pmm).is_available(i));
                            }
                        }
                    }
                    return Err(AllocError);
                },
            }
        }
        proof {
            assert forall|k: int|
                #![trigger frames@[k]]
                0 <= k < frames@.len() implies old(pmm).is_available(frames@[k] as int / PAGE_SIZE as int)
                    && (frames@[k] as int / PAGE_SIZE as int) < old(pmm).frame_count() by {}
            lemma_count_at_least(old(pmm), frames@, old(pmm).frame_count() as int);
        }
        self.bottom_page = bottom + pages * PAGE_SIZE;
        Ok((bottom, frames))
    }

    /// Nothing is taken back: the memory stays with the cursor's past.
    pub fn dealloc(&mut self, _addr: usize, _size: usize)
        ensures
            final(self).cursor() == old(self).cursor(),
    {
    }
}

} // verus!
