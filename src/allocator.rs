use vstd::prelude::*;

use crate::addr::{align_down, canonical_range, Page, PhysFrame, PAGE_SIZE};
use crate::mem::BootInfoFrameAllocator;
use crate::paging::{present_writable, MapToError, Mapper, Mapping, PageTableFlags, PageTableModel};

verus! {

/// First virtual address of the kernel heap.
pub const HEAP_START: u64 = 0x4444_4000;

/// Size of the kernel heap in bytes: 1 MiB.
pub const HEAP_SIZE: u64 = 1024 * 1024;

/// Number of pages that cover the bytes `[start, start + size)`.
pub open spec fn page_count(start: u64, size: u64) -> nat {
    ((align_down((start + size - 1) as u64) - align_down(start)) / 4096 + 1) as nat
}

/// Start address of the `j`-th page covering a range that begins at `start`.
pub open spec fn nth_page(start: u64, j: nat) -> u64 {
    (align_down(start) + j * 4096) as u64
}

/// `m` after the first `k` pages from `start` were mapped, present and
/// writable, to the frames `frames[c]`, `frames[c + 1]`, ...
pub open spec fn mapped_after(
    m: Map<u64, Mapping>,
    start: u64,
    frames: Seq<u64>,
    c: nat,
    k: nat,
) -> Map<u64, Mapping>
    decreases k,
{
    if k == 0 {
        m
    } else {
        mapped_after(m, start, frames, c, (k - 1) as nat).insert(
            nth_page(start, (k - 1) as nat),
            Mapping {
                frame: PhysFrame { start: frames[c + k - 1] },
                flags: present_writable(),
            },
        )
    }
}

/// What mapping `[start, start + size)` page by page does: `k` pages were
/// mapped, each with the next frame; it stopped at the first page whose
/// frame was missing (with `FrameAllocationFailed`) or whose mapping the
/// mapper refused (with the mapper's own error), and mapped nothing after.
pub open spec fn map_pages_outcome<M: Mapper>(
    m0: Map<u64, Mapping>,
    m1: Map<u64, Mapping>,
    frames: Seq<u64>,
    c0: nat,
    c1: nat,
    start: u64,
    size: u64,
    r: Result<(), MapToError>,
) -> bool {
    let n = page_count(start, size);
    let k: nat = if r is Ok { n } else { (c1 - c0 - 1) as nat };
    &&& c0 < c1 <= c0 + n
    &&& r is Ok ==> c1 == c0 + n
    &&& k <= n
    &&& k > 0 ==> c0 + k <= frames.len()
    &&& m1 == mapped_after(m0, start, frames, c0, k)
    &&& r is Err ==> k < n && if c0 + k >= frames.len() {
        r == Err::<(), MapToError>(MapToError::FrameAllocationFailed)
    } else {
        exists|mk: M|
            #![trigger mk.mappings()]
            mk.mappings() == mapped_after(m0, start, frames, c0, k) && mk.refusal(
                Page { start: nth_page(start, k) },
            ) is Some && r == Err::<(), MapToError>(
                mk.refusal(Page { start: nth_page(start, k) })->0,
            )
    }
}

/// Where building a mapped range stands.
#[derive(Clone, Copy, Debug)]
pub enum HeapPhase {
    /// The next page needs a frame.
    NeedFrame,
    /// The next page is to be mapped to this frame.
    NeedMap(PhysFrame),
    /// Done, with this result.
    Finished(Result<(), MapToError>),
}

/// What the caller reports back after doing the last action.
#[derive(Clone, Copy, Debug)]
pub enum HeapEvent {
    /// The frame allocator answered.
    Frame(Option<PhysFrame>),
    /// The mapper answered, after invalidating the page's stale translation.
    Mapped(Result<(), MapToError>),
}

/// What the caller is to do next.
#[derive(Clone, Copy, Debug)]
pub enum HeapAction {
    /// Ask the frame allocator for one frame.
    AllocateFrame,
    /// Map the page to the frame with these flags, then invalidate the
    /// page's stale translation.
    MapPage(Page, PhysFrame, PageTableFlags),
    /// Stop, with this result.
    Finish(Result<(), MapToError>),
}

/// The event that answers the action of `phase`.
pub open spec fn answers(phase: HeapPhase, e: HeapEvent) -> bool {
    (phase is NeedFrame && e is Frame) || (phase is NeedMap && e is Mapped)
}

/// Phase and number of mapped pages after event `e`, out of `count` pages:
/// a missing frame stops with `FrameAllocationFailed`, a refused mapping
/// stops with the mapper's error, and a mapped page moves on to the next
/// page or finishes.
pub open spec fn heap_next(phase: HeapPhase, done: nat, count: nat, e: HeapEvent) -> (HeapPhase, nat) {
    match e {
        HeapEvent::Frame(None) => (HeapPhase::Finished(Err(MapToError::FrameAllocationFailed)), done),
        HeapEvent::Frame(Some(f)) => (HeapPhase::NeedMap(f), done),
        HeapEvent::Mapped(Ok(())) => if done + 1 == count {
            (HeapPhase::Finished(Ok(())), done + 1)
        } else {
            (HeapPhase::NeedFrame, done + 1)
        },
        HeapEvent::Mapped(Err(err)) => (HeapPhase::Finished(Err(err)), done),
    }
}

/// The decisions of mapping the pages of `[start, start + size)` one by
/// one, each to a fresh frame, present and writable; the caller performs
/// each action and reports what happened.
pub struct HeapBuilder {
    start: u64,
    size: u64,
    first: u64,
    count: u64,
    done: u64,
    phase: HeapPhase,
}

impl HeapBuilder {
    pub closed spec fn start(&self) -> u64 {
        self.start
    }

    pub closed spec fn size(&self) -> u64 {
        self.size
    }

    /// Number of pages mapped so far.
    pub closed spec fn done(&self) -> nat {
        self.done as nat
    }

    pub closed spec fn phase(&self) -> HeapPhase {
        self.phase
    }

    /// Number of pages to map.
    pub open spec fn count(&self) -> nat {
        page_count(self.start(), self.size())
    }

    pub closed spec fn wf(&self) -> bool {
        &&& self.size > 0
        &&& self.start + self.size - 1 <= u64::MAX
        &&& self.first == align_down(self.start)
        &&& self.count == page_count(self.start, self.size)
        &&& self.first + self.count * 4096 <= u64::MAX + 1
        &&& self.done <= self.count
        &&& !(self.phase is Finished) ==> self.done < self.count
    }

    /// Steps still to come, for termination.
    pub open spec fn remaining(&self) -> int {
        match self.phase() {
            HeapPhase::NeedFrame => 2 * (self.count() - self.done()),
            HeapPhase::NeedMap(_) => 2 * (self.count() - self.done()) - 1,
            HeapPhase::Finished(_) => 0,
        }
    }

    /// The action that `phase` asks for, with `done` pages mapped.
    pub open spec fn action_of(&self) -> HeapAction {
        match self.phase() {
            HeapPhase::NeedFrame => HeapAction::AllocateFrame,
            HeapPhase::NeedMap(f) => HeapAction::MapPage(
                Page { start: nth_page(self.start(), self.done()) },
                f,
                present_writable(),
            ),
            HeapPhase::Finished(r) => HeapAction::Finish(r),
        }
    }

    /// Starts mapping the pages that cover `[start, start + size)`: the
    /// first action asks for a frame.
    pub fn new(start: u64, size: u64) -> (b: HeapBuilder)
        requires
            size > 0,
            start + size - 1 <= u64::MAX,
            canonical_range(start, size),
        ensures
            b.wf(),
            b.start() == start,
            b.size() == size,
            b.done() == 0,
            b.phase() == HeapPhase::NeedFrame,
    {
        let first = Page::containing_address(start);
        let last = Page::containing_address(start + (size - 1));
        proof {
            assert(first.start <= last.start) by {
                assert(start <= start + (size - 1));
            }
            assert((last.start - first.start) % 4096 == 0) by (nonlinear_arith)
                requires
                    first.start % 4096 == 0,
                    last.start % 4096 == 0,
                    first.start <= last.start,
            {}
            let n = (last.start - first.start) / 4096 + 1;
            assert(first.start + n * 4096 <= u64::MAX + 1) by (nonlinear_arith)
                requires
                    n == (last.start - first.start) / 4096 + 1,
                    (last.start - first.start) % 4096 == 0,
                    first.start <= last.start,
                    last.start <= u64::MAX - 4095,
            {}
            assert(last.start <= u64::MAX - 4095) by {
                assert(last.start % 4096 == 0);
            }
        }
        let count: u64 = (last.start - first.start) / PAGE_SIZE + 1;
        HeapBuilder { start, size, first: first.start, count, done: 0, phase: HeapPhase::NeedFrame }
    }

    /// What to do next.
    pub fn action(&self) -> (a: HeapAction)
        requires
            self.wf(),
        ensures
            a == self.action_of(),
    {
        match self.phase {
            HeapPhase::NeedFrame => HeapAction::AllocateFrame,
            HeapPhase::NeedMap(f) => {
                proof {
                    assert(self.done * 4096 < self.count * 4096) by (nonlinear_arith)
                        requires
                            self.done < self.count,
                    {}
                }
                HeapAction::MapPage(
                    Page { start: self.first + self.done * PAGE_SIZE },
                    f,
                    PageTableFlags::present_writable(),
                )
            },
            HeapPhase::Finished(r) => HeapAction::Finish(r),
        }
    }

    /// Whether the builder has stopped.
    pub fn is_finished(&self) -> (r: bool)
        ensures
            r == self.phase() is Finished,
    {
        match self.phase {
            HeapPhase::Finished(_) => true,
            _ => false,
        }
    }

    /// Takes in what the last action produced.
    pub fn step(&mut self, e: HeapEvent)
        requires
            old(self).wf(),
            answers(old(self).phase(), e),
        ensures
            final(self).wf(),
            final(self).start() == old(self).start(),
            final(self).size() == old(self).size(),
            (final(self).phase(), final(self).done()) == heap_next(
                old(self).phase(),
                old(self).done(),
                old(self).count(),
                e,
            ),
            final(self).remaining() < old(self).remaining(),
    {
        match e {
            HeapEvent::Frame(None) => {
                self.phase = HeapPhase::Finished(Err(MapToError::FrameAllocationFailed));
            },
            HeapEvent::Frame(Some(f)) => {
                self.phase = HeapPhase::NeedMap(f);
            },
            HeapEvent::Mapped(Ok(())) => {
                self.done = self.done + 1;
                if self.done == self.count {
                    self.phase = HeapPhase::Finished(Ok(()));
                } else {
                    self.phase = HeapPhase::NeedFrame;
                }
            },
            HeapEvent::Mapped(Err(err)) => {
                self.phase = HeapPhase::Finished(Err(err));
            },
        }
    }
}

/// Maps every page that covers `[start, start + size)`, in ascending order,
/// each to a fresh frame, present and writable, by running a
/// [`HeapBuilder`] against `mapper` and `frame_allocator`. Stops at the
/// first page that gets no frame or that the mapper refuses; pages mapped
/// before stay mapped.
pub fn map_pages<M: Mapper>(
    mapper: &mut M,
    frame_allocator: &mut BootInfoFrameAllocator,
    start: u64,
    size: u64,
) -> (r: Result<(), MapToError>)
    requires
        size > 0,
        start + size - 1 <= u64::MAX,
        canonical_range(start, size),
        old(frame_allocator).wf(),
        old(frame_allocator).cursor() + page_count(start, size) < usize::MAX,
    ensures
        final(frame_allocator).wf(),
        final(frame_allocator).regions() == old(frame_allocator).regions(),
        map_pages_outcome::<M>(
            old(mapper).mappings(),
            final(mapper).mappings(),
            old(frame_allocator).frames(),
            old(frame_allocator).cursor(),
            final(frame_allocator).cursor(),
            start,
            size,
            r,
        ),
{
    let ghost m0 = mapper.mappings();
    let ghost frames = frame_allocator.frames();
    let ghost c0 = frame_allocator.cursor();
    let mut b = HeapBuilder::new(start, size);
    while !b.is_finished()
        invariant
            b.wf(),
            b.start() == start,
            b.size() == size,
            frame_allocator.wf(),
            frame_allocator.regions() == old(frame_allocator).regions(),
            frame_allocator.frames() == frames,
            c0 + page_count(start, size) < usize::MAX,
            b.phase() is NeedFrame ==> {
                &&& frame_allocator.cursor() == c0 + b.done()
                &&& b.done() > 0 ==> c0 + b.done() <= frames.len()
                &&& mapper.mappings() == mapped_after(m0, start, frames, c0, b.done())
            },
            b.phase() is NeedMap ==> {
                &&& frame_allocator.cursor() == c0 + b.done() + 1
                &&& c0 + b.done() < frames.len()
                &&& b.phase()->NeedMap_0 == PhysFrame { start: frames[c0 + b.done() as int] }
                &&& mapper.mappings() == mapped_after(m0, start, frames, c0, b.done())
            },
            b.phase() is Finished ==> map_pages_outcome::<M>(
                m0,
                mapper.mappings(),
                frames,
                c0,
                frame_allocator.cursor(),
                start,
                size,
                b.phase()->Finished_0,
            ),
        decreases b.remaining(),
    {
        match b.action() {
            HeapAction::AllocateFrame => {
                let f = frame_allocator.allocate_frame();
                b.step(HeapEvent::Frame(f));
            },
            HeapAction::MapPage(page, frame, flags) => {
                let ghost before = *mapper;
                let ghost k = b.done();
                let r = mapper.map_to(page, frame, flags);
                proof {
                    if r is Err {
                        assert(before.mappings() == mapped_after(m0, start, frames, c0, k));
                        assert(before.refusal(Page { start: nth_page(start, k) }) is Some);
                    } else {
                        assert(mapped_after(m0, start, frames, c0, k + 1) == mapped_after(
                            m0,
                            start,
                            frames,
                            c0,
                            k,
                        ).insert(page.start, Mapping { frame, flags }));
                    }
                }
                b.step(HeapEvent::Mapped(r));
            },
            HeapAction::Finish(_) => {},
        }
    }
    match b.action() {
        HeapAction::Finish(r) => r,
        _ => Ok(()),
    }
}

/// Backs the heap window `[HEAP_START, HEAP_START + HEAP_SIZE)` with frames,
/// page by page, as `map_pages` does.
pub fn init_heap<M: Mapper>(mapper: &mut M, frame_allocator: &mut BootInfoFrameAllocator) -> (r:
    Result<(), MapToError>)
    requires
        old(frame_allocator).wf(),
        old(frame_allocator).cursor() + page_count(HEAP_START, HEAP_SIZE) < usize::MAX,
    ensures
        final(frame_allocator).wf(),
        final(frame_allocator).regions() == old(frame_allocator).regions(),
        map_pages_outcome::<M>(
            old(mapper).mappings(),
            final(mapper).mappings(),
            old(frame_allocator).frames(),
            old(frame_allocator).cursor(),
            final(frame_allocator).cursor(),
            HEAP_START,
            HEAP_SIZE,
            r,
        ),
{
    map_pages(mapper, frame_allocator, HEAP_START, HEAP_SIZE)
}

/// Contents of `mapped_after`: each of the first `k` pages maps to its
/// frame, present and writable, and every other key is as in `m`.
proof fn lemma_mapped_after(m: Map<u64, Mapping>, start: u64, frames: Seq<u64>, c: nat, k: nat)
    requires
        start as int + k * 4096 <= u64::MAX + 1,
        start % 4096 == 0,
    ensures
        forall|j: nat|
            j < k ==> #[trigger] mapped_after(m, start, frames, c, k).contains_key(nth_page(start, j))
                && mapped_after(m, start, frames, c, k)[nth_page(start, j)] == (Mapping {
                frame: PhysFrame { start: frames[c + j as int] },
                flags: present_writable(),
            }),
        forall|key: u64|
            key < start || key >= start + k * 4096 || key % 4096 != 0 ==> (
            #[trigger] mapped_after(m, start, frames, c, k).contains_key(key) == m.contains_key(key)
                && (m.contains_key(key) ==> mapped_after(m, start, frames, c, k)[key] == m[key])),
    decreases k,
{
    if k > 0 {
        let k1 = (k - 1) as nat;
        lemma_mapped_after(m, start, frames, c, k1);
        assert(align_down(start) == start);
        let p = nth_page(start, k1);
        assert(p == start + k1 * 4096);
        assert(p % 4096 == 0) by (nonlinear_arith)
            requires
                p == start + k1 * 4096,
                start % 4096 == 0,
        {}
        let mk = mapped_after(m, start, frames, c, k1).insert(
            p,
            Mapping { frame: PhysFrame { start: frames[c + k1 as int] }, flags: present_writable() },
        );
        assert(mapped_after(m, start, frames, c, k) == mk);
        assert forall|j: nat| j < k implies #[trigger] mapped_after(
            m,
            start,
            frames,
            c,
            k,
        ).contains_key(nth_page(start, j)) && mapped_after(m, start, frames, c, k)[nth_page(
            start,
            j,
        )] == (Mapping { frame: PhysFrame { start: frames[c + j as int] }, flags: present_writable() }) by {
            assert(j * 4096 <= k1 * 4096) by (nonlinear_arith)
                requires
                    j <= k1,
            {}
            assert(nth_page(start, j) == start + j * 4096);
            if j < k1 {
                assert(j * 4096 < k1 * 4096) by (nonlinear_arith)
                    requires
                        j < k1,
                {}
                assert(nth_page(start, j) != p);
                assert(mapped_after(m, start, frames, c, k1).contains_key(nth_page(start, j)));
            }
        }
        assert forall|key: u64|
            key < start || key >= start + k * 4096 || key % 4096 != 0 implies (
            #[trigger] mapped_after(m, start, frames, c, k).contains_key(key) == m.contains_key(key)
                && (m.contains_key(key) ==> mapped_after(m, start, frames, c, k)[key] == m[key])) by {
            assert(key != p);
            assert(key < start || key >= start + k1 * 4096 || key % 4096 != 0);
            assert(mapped_after(m, start, frames, c, k) == mapped_after(m, start, frames, c, k1).insert(
                p,
                Mapping { frame: PhysFrame { start: frames[c + k1 as int] }, flags: present_writable() },
            ));
        }
    }
}

/// Mapping `size` bytes from a page boundary, `size` a multiple of 4 KiB,
/// asks for exactly `size / 4096` frames when it succeeds, and maps page
/// `j` to the `j`-th of them, present and writable; no other entry of the
/// table changes.
pub proof fn lemma_map_pages_exact<M: Mapper>(
    m0: Map<u64, Mapping>,
    m1: Map<u64, Mapping>,
    frames: Seq<u64>,
    c0: nat,
    c1: nat,
    start: u64,
    size: u64,
    r: Result<(), MapToError>,
)
    requires
        map_pages_outcome::<M>(m0, m1, frames, c0, c1, start, size, r),
        start % 4096 == 0,
        size % 4096 == 0,
        size > 0,
        start + size <= u64::MAX + 1,
    ensures
        page_count(start, size) == size / 4096,
        r is Ok ==> c1 - c0 == size / 4096,
        r is Ok ==> forall|j: nat|
            j < size / 4096 ==> #[trigger] m1.contains_key(nth_page(start, j)) && m1[nth_page(
                start,
                j,
            )] == (Mapping { frame: PhysFrame { start: frames[c0 + j as int] }, flags: present_writable() }),
        forall|key: u64|
            key < start || key >= start + size || key % 4096 != 0 ==> (#[trigger] m1.contains_key(key)
                == m0.contains_key(key) && (m0.contains_key(key) ==> m1[key] == m0[key])),
{
    lemma_page_count_aligned(start, size);
    let n = size / 4096;
    let k: nat = if r is Ok { n as nat } else { (c1 - c0 - 1) as nat };
    assert(start as int + k * 4096 <= u64::MAX + 1) by (nonlinear_arith)
        requires
            k <= n,
            n == size / 4096,
            start + size <= u64::MAX + 1,
            size >= 0,
    {}
    lemma_mapped_after(m0, start, frames, c0, k);
    assert forall|key: u64|
        key < start || key >= start + size || key % 4096 != 0 implies (#[trigger] m1.contains_key(key)
            == m0.contains_key(key) && (m0.contains_key(key) ==> m1[key] == m0[key])) by {
        assert(k * 4096 <= size) by (nonlinear_arith)
            requires
                k <= n,
                n == size / 4096,
                size >= 0,
        {}
        assert(mapped_after(m0, start, frames, c0, k).contains_key(key) == m0.contains_key(key));
    }
}

/// Mapping `size` bytes from a page boundary when fewer frames are left than
/// pages: it fails, and pages from the one that got no frame onwards keep
/// whatever entry they had before.
pub proof fn lemma_map_pages_exhausted<M: Mapper>(
    m0: Map<u64, Mapping>,
    m1: Map<u64, Mapping>,
    frames: Seq<u64>,
    c0: nat,
    c1: nat,
    start: u64,
    size: u64,
    r: Result<(), MapToError>,
)
    requires
        map_pages_outcome::<M>(m0, m1, frames, c0, c1, start, size, r),
        start % 4096 == 0,
        size % 4096 == 0,
        size > 0,
        start + size <= u64::MAX + 1,
        c0 + size / 4096 > frames.len(),
    ensures
        r is Err,
        c1 - 1 <= frames.len() || c0 >= frames.len(),
        forall|key: u64|
            key >= start + (c1 - 1 - c0) * 4096 ==> (#[trigger] m1.contains_key(key) == m0.contains_key(
                key,
            ) && (m0.contains_key(key) ==> m1[key] == m0[key])),
        forall|j: nat|
            j < c1 - 1 - c0 ==> #[trigger] m1.contains_key(nth_page(start, j)) && m1[nth_page(
                start,
                j,
            )] == (Mapping { frame: PhysFrame { start: frames[c0 + j as int] }, flags: present_writable() }),
{
    lemma_page_count_aligned(start, size);
    let n = size / 4096;
    let k: nat = (c1 - c0 - 1) as nat;
    assert(start as int + k * 4096 <= u64::MAX + 1) by (nonlinear_arith)
        requires
            k <= n,
            n == size / 4096,
            start + size <= u64::MAX + 1,
            size >= 0,
    {}
    lemma_mapped_after(m0, start, frames, c0, k);
}

proof fn lemma_page_count_aligned(start: u64, size: u64)
    requires
        start % 4096 == 0,
        size % 4096 == 0,
        size > 0,
        start + size <= u64::MAX + 1,
    ensures
        page_count(start, size) == size / 4096,
        align_down(start) == start,
{
    let e = (start + size - 1) as u64;
    assert(align_down(e) == start + size - 4096) by (nonlinear_arith)
        requires
            e == start + size - 1,
            start % 4096 == 0,
            size % 4096 == 0,
            size > 0,
    {}
    assert((size - 4096) / 4096 + 1 == size / 4096) by (nonlinear_arith)
        requires
            size % 4096 == 0,
            size > 0,
    {}
}

/// The heap window covers `HEAP_SIZE / 4096` pages, from a page boundary.
pub proof fn lemma_heap_pages()
    ensures
        HEAP_START % 4096 == 0,
        page_count(HEAP_START, HEAP_SIZE) == HEAP_SIZE / 4096,
        HEAP_SIZE / 4096 == 256,
{
    lemma_page_count_aligned(HEAP_START, HEAP_SIZE);
}

/// On an in-memory table where none of the pages is mapped yet, mapping
/// `size` bytes from a page boundary succeeds exactly when every frame
/// request succeeds, that is when `size / 4096` frames are left; otherwise
/// it fails with `FrameAllocationFailed`.
pub proof fn lemma_model_succeeds_iff_frames_left(
    m0: Map<u64, Mapping>,
    m1: Map<u64, Mapping>,
    frames: Seq<u64>,
    c0: nat,
    c1: nat,
    start: u64,
    size: u64,
    r: Result<(), MapToError>,
)
    requires
        map_pages_outcome::<PageTableModel>(m0, m1, frames, c0, c1, start, size, r),
        start % 4096 == 0,
        size % 4096 == 0,
        size > 0,
        start + size <= u64::MAX + 1,
        forall|j: nat| j < size / 4096 ==> !m0.contains_key(#[trigger] nth_page(start, j)),
    ensures
        r is Ok <==> c0 + size / 4096 <= frames.len(),
        r is Err ==> r == Err::<(), MapToError>(MapToError::FrameAllocationFailed),
{
    lemma_page_count_aligned(start, size);
    let n = size / 4096;
    if r is Err {
        let k: nat = (c1 - c0 - 1) as nat;
        if c0 + k < frames.len() {
            let p = Page { start: nth_page(start, k) };
            let mk = choose|mk: PageTableModel|
                #![trigger mk.mappings()]
                mk.mappings() == mapped_after(m0, start, frames, c0, k) && mk.refusal(p) is Some && r
                    == Err::<(), MapToError>(mk.refusal(p)->0);
            assert(start as int + k * 4096 <= u64::MAX + 1) by (nonlinear_arith)
                requires
                    k < n,
                    n == size / 4096,
                    start + size <= u64::MAX + 1,
                    size >= 0,
            {}
            lemma_mapped_after(m0, start, frames, c0, k);
            assert(nth_page(start, k) == start + k * 4096);
            assert(nth_page(start, k) % 4096 == 0) by (nonlinear_arith)
                requires
                    nth_page(start, k) == start + k * 4096,
                    start % 4096 == 0,
            {}
            assert(!m0.contains_key(nth_page(start, k)));
            assert(false);
        }
    }
}

} // verus!
