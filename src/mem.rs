use vstd::prelude::*;

use crate::addr::{PhysFrame, PAGE_SIZE, PHYS_ADDR_LIMIT};

verus! {

/// What the boot loader reports a span of physical memory to be.
#[derive(Clone, Copy, Debug, PartialEq, Eq, Structural)]
pub enum MemoryRegionKind {
    Usable,
    Bootloader,
    UnknownUefi(u32),
    UnknownBios(u32),
}

/// A span `[start, end)` of physical memory reported at boot.
#[derive(Clone, Copy, Debug, PartialEq, Eq, Structural)]
pub struct MemoryRegion {
    pub start: u64,
    pub end: u64,
    pub kind: MemoryRegionKind,
}

/// The first 4 KiB boundary at or above the start of `r`.
pub open spec fn first_frame(r: MemoryRegion) -> int {
    r.start + if r.start % 4096 == 0 { 0int } else { 4096 - r.start % 4096 }
}

/// Number of 4 KiB-aligned addresses in `[r.start, r.end)`.
pub open spec fn frame_count(r: MemoryRegion) -> nat {
    if first_frame(r) < r.end {
        let len = (r.end - first_frame(r)) as nat;
        len / 4096 + if len % 4096 == 0 { 0nat } else { 1nat }
    } else {
        0
    }
}

/// The 4 KiB-aligned addresses `a` with `r.start <= a < r.end`, in
/// ascending order: each names the frame that starts there. A frame that
/// starts below an unaligned `r.start` is not among them, since part of it
/// lies outside the region.
pub open spec fn region_frames(r: MemoryRegion) -> Seq<u64> {
    Seq::new(frame_count(r), |i: int| (first_frame(r) + i * 4096) as u64)
}

/// The frames of the usable regions, region after region, in list order.
pub open spec fn usable_frames_of(rs: Seq<MemoryRegion>) -> Seq<u64>
    decreases rs.len(),
{
    if rs.len() == 0 {
        seq![]
    } else {
        usable_frames_of(rs.drop_last()) + if rs.last().kind == MemoryRegionKind::Usable {
            region_frames(rs.last())
        } else {
            seq![]
        }
    }
}

/// The usable regions of `rs`, in list order.
pub open spec fn usable_regions_of(rs: Seq<MemoryRegion>) -> Seq<MemoryRegion>
    decreases rs.len(),
{
    if rs.len() == 0 {
        seq![]
    } else if rs.last().kind == MemoryRegionKind::Usable {
        usable_regions_of(rs.drop_last()).push(rs.last())
    } else {
        usable_regions_of(rs.drop_last())
    }
}

/// Total size in bytes of the usable regions of `rs`.
pub open spec fn usable_bytes_of(rs: Seq<MemoryRegion>) -> nat
    decreases rs.len(),
{
    if rs.len() == 0 {
        0
    } else {
        usable_bytes_of(rs.drop_last()) + if rs.last().kind == MemoryRegionKind::Usable
            && rs.last().start <= rs.last().end {
            (rs.last().end - rs.last().start) as nat
        } else {
            0nat
        }
    }
}

/// Whole 4 KiB pages in the usable regions of `rs`, counted region by region.
pub open spec fn usable_pages_of(rs: Seq<MemoryRegion>) -> nat
    decreases rs.len(),
{
    if rs.len() == 0 {
        0
    } else {
        usable_pages_of(rs.drop_last()) + if rs.last().kind == MemoryRegionKind::Usable
            && rs.last().start <= rs.last().end {
            ((rs.last().end - rs.last().start) / 4096) as nat
        } else {
            0nat
        }
    }
}

/// Usable regions, whole pages and bytes of a memory map.
#[derive(Clone, Copy, Debug, PartialEq, Eq, Structural)]
pub struct MemorySummary {
    pub regions: usize,
    pub pages: u64,
    pub bytes: u64,
}

/// Every usable region lies within the physical address space.
pub open spec fn valid_memory_map(rs: Seq<MemoryRegion>) -> bool {
    forall|i: int|
        0 <= i < rs.len() && #[trigger] rs[i].kind == MemoryRegionKind::Usable
            ==> rs[i].end <= PHYS_ADDR_LIMIT
}

/// Frame `i` of a region is aligned, starts inside the region, and the
/// next frame of the region, if any, starts 4 KiB after it.
pub proof fn lemma_region_frame(r: MemoryRegion, i: int)
    requires
        0 <= i < frame_count(r),
    ensures
        i + 1 < frame_count(r) ==> region_frames(r)[i + 1] == region_frames(r)[i] + 4096,
        first_frame(r) % 4096 == 0,
        (first_frame(r) + i * 4096) % 4096 == 0,
        r.start <= first_frame(r) + i * 4096,
        first_frame(r) + i * 4096 < r.end,
        region_frames(r)[i] == first_frame(r) + i * 4096,
{
    let f = first_frame(r);
    assert(f % 4096 == 0);
    assert((f + i * 4096) % 4096 == 0) by (nonlinear_arith)
        requires
            f % 4096 == 0,
            i >= 0,
    {}
    let len = (r.end - f) as nat;
    if len % 4096 == 0 {
        assert(i * 4096 < len) by (nonlinear_arith)
            requires
                0 <= i < len / 4096,
                len % 4096 == 0,
        {}
    } else {
        assert(i * 4096 < len) by (nonlinear_arith)
            requires
                0 <= i <= len / 4096,
                len % 4096 != 0,
        {}
    }
}

/// Frames of a valid map stay below the physical address limit.
proof fn lemma_frames_valid(rs: Seq<MemoryRegion>)
    requires
        valid_memory_map(rs),
    ensures
        forall|k: int|
            0 <= k < usable_frames_of(rs).len() ==> #[trigger] usable_frames_of(rs)[k]
                < PHYS_ADDR_LIMIT && usable_frames_of(rs)[k] % 4096 == 0,
    decreases rs.len(),
{
    if rs.len() > 0 {
        let init = rs.drop_last();
        assert(valid_memory_map(init)) by {
            assert forall|i: int|
                0 <= i < init.len() && #[trigger] init[i].kind == MemoryRegionKind::Usable
                    implies init[i].end <= PHYS_ADDR_LIMIT by {
                assert(init[i] == rs[i]);
            }
        }
        lemma_frames_valid(init);
        let r = rs.last();
        if r.kind == MemoryRegionKind::Usable {
            assert(r == rs[rs.len() - 1]);
            assert forall|j: int| 0 <= j < region_frames(r).len() implies #[trigger] region_frames(
                r,
            )[j] < PHYS_ADDR_LIMIT && region_frames(r)[j] % 4096 == 0 by {
                lemma_region_frame(r, j);
            }
        }
        let a = usable_frames_of(init);
        let b = if r.kind == MemoryRegionKind::Usable {
            region_frames(r)
        } else {
            seq![]
        };
        assert forall|k: int| 0 <= k < usable_frames_of(rs).len() implies #[trigger] usable_frames_of(
            rs,
        )[k] < PHYS_ADDR_LIMIT && usable_frames_of(rs)[k] % 4096 == 0 by {
            if k < a.len() {
                assert(usable_frames_of(rs)[k] == a[k]);
            } else {
                assert(usable_frames_of(rs)[k] == b[k - a.len()]);
            }
        }
    }
}

/// The first frame of `r` and the number of frames in it.
fn region_frame_span(r: &MemoryRegion) -> (res: (u64, u64))
    ensures
        res.1 == frame_count(*r),
        res.1 > 0 ==> res.0 == first_frame(*r),
{
    if r.end <= r.start {
        return (0, 0);
    }
    let rem = r.start % PAGE_SIZE;
    let pad = if rem == 0 { 0 } else { PAGE_SIZE - rem };
    if r.end - r.start <= pad {
        (0, 0)
    } else {
        let first = r.start + pad;
        let len = r.end - first;
        (first, len / PAGE_SIZE + if len % PAGE_SIZE == 0 { 0 } else { 1 })
    }
}

/// Hands out the usable frames of the boot memory map one at a time, in map
/// order, never going back to one it has passed.
pub struct BootInfoFrameAllocator {
    memory_map: Vec<MemoryRegion>,
    next: usize,
}

impl BootInfoFrameAllocator {
    /// The boot memory map the frames come from.
    pub closed spec fn regions(&self) -> Seq<MemoryRegion> {
        self.memory_map@
    }

    /// How many times a frame has been asked for.
    pub closed spec fn cursor(&self) -> nat {
        self.next as nat
    }

    /// The frame addresses this allocator walks through.
    pub open spec fn frames(&self) -> Seq<u64> {
        usable_frames_of(self.regions())
    }

    pub open spec fn wf(&self) -> bool {
        valid_memory_map(self.regions())
    }

    /// An allocator over `memory_map` that has handed out nothing yet.
    pub fn init(memory_map: Vec<MemoryRegion>) -> (a: Self)
        requires
            valid_memory_map(memory_map@),
        ensures
            a.wf(),
            a.regions() == memory_map@,
            a.cursor() == 0,
    {
        BootInfoFrameAllocator { memory_map, next: 0 }
    }

    /// How many frames have been asked for so far, found or not.
    pub fn next_index(&self) -> (r: usize)
        ensures
            r == self.cursor(),
    {
        self.next
    }

    /// The frame at position `n` of the usable-frame sequence, if there is one.
    pub fn nth_usable_frame(&self, n: usize) -> (r: Option<PhysFrame>)
        requires
            self.wf(),
        ensures
            n < self.frames().len() ==> r == Some(PhysFrame { start: self.frames()[n as int] }),
            n >= self.frames().len() ==> r is None,
    {
        let ghost rs = self.memory_map@;
        proof {
            lemma_frames_valid(rs);
        }
        let mut rest: u64 = n as u64;
        let mut i: usize = 0;
        while i < self.memory_map.len()
            invariant
                rs == self.memory_map@,
                self.wf(),
                0 <= i <= rs.len(),
                usable_frames_of(rs.take(i as int)).len() + rest == n,
            decreases rs.len() - i,
        {
            let r = self.memory_map[i];
            proof {
                assert(rs.take(i + 1).drop_last() == rs.take(i as int));
                assert(rs.take(i + 1).last() == r);
            }
            if r.kind == MemoryRegionKind::Usable {
                let (first, count) = region_frame_span(&r);
                if rest < count {
                    proof {
                        lemma_region_frame(r, rest as int);
                        let pre = usable_frames_of(rs.take(i as int));
                        let upto = usable_frames_of(rs.take(i + 1));
                        assert(upto == pre + region_frames(r));
                        assert(upto[n as int] == region_frames(r)[rest as int]);
                        lemma_prefix_frames(rs, i + 1);
                        assert(r == rs[i as int]);
                    }
                    return Some(PhysFrame { start: first + rest * PAGE_SIZE });
                }
                rest = rest - count;
            }
            i = i + 1;
        }
        proof {
            assert(rs.take(rs.len() as int) == rs);
        }
        None
    }

    /// The usable regions of the map, in map order.
    pub fn usable_regions(&self) -> (r: Vec<MemoryRegion>)
        ensures
            r@ == usable_regions_of(self.regions()),
    {
        let ghost rs = self.memory_map@;
        let mut out: Vec<MemoryRegion> = Vec::new();
        let mut i: usize = 0;
        while i < self.memory_map.len()
            invariant
                rs == self.memory_map@,
                0 <= i <= rs.len(),
                out@ == usable_regions_of(rs.take(i as int)),
            decreases rs.len() - i,
        {
            let r = self.memory_map[i];
            proof {
                assert(rs.take(i + 1).drop_last() == rs.take(i as int));
            }
            if r.kind == MemoryRegionKind::Usable {
                out.push(r);
            }
            i = i + 1;
        }
        proof {
            assert(rs.take(rs.len() as int) == rs);
        }
        out
    }

    /// Every frame the allocator can hand out, in the order it hands them out.
    pub fn usable_frames(&self) -> (r: Vec<PhysFrame>)
        requires
            self.wf(),
        ensures
            r@.len() == self.frames().len(),
            forall|k: int| 0 <= k < r@.len() ==> #[trigger] r@[k].start == self.frames()[k],
    {
        let ghost rs = self.memory_map@;
        let mut out: Vec<PhysFrame> = Vec::new();
        let mut i: usize = 0;
        while i < self.memory_map.len()
            invariant
                rs == self.memory_map@,
                self.wf(),
                0 <= i <= rs.len(),
                out@.len() == usable_frames_of(rs.take(i as int)).len(),
                forall|k: int|
                    0 <= k < out@.len() ==> #[trigger] out@[k].start == usable_frames_of(
                        rs.take(i as int),
                    )[k],
            decreases rs.len() - i,
        {
            let r = self.memory_map[i];
            proof {
                assert(rs.take(i + 1).drop_last() == rs.take(i as int));
                assert(r == rs[i as int]);
            }
            let ghost pre = usable_frames_of(rs.take(i as int));
            if r.kind == MemoryRegionKind::Usable {
                let (first, count) = region_frame_span(&r);
                let mut j: u64 = 0;
                while j < count
                    invariant
                        rs == self.memory_map@,
                        self.wf(),
                        0 <= i < rs.len(),
                        r == rs[i as int],
                        r.kind == MemoryRegionKind::Usable,
                        count == frame_count(r),
                        count > 0 ==> first == first_frame(r),
                        0 <= j <= count,
                        out@.len() == pre.len() + j,
                        forall|k: int|
                            0 <= k < out@.len() ==> #[trigger] out@[k].start == (pre + region_frames(
                                r,
                            ))[k],
                    decreases count - j,
                {
                    proof {
                        lemma_region_frame(r, j as int);
                    }
                    let f = PhysFrame { start: first + j * PAGE_SIZE };
                    out.push(f);
                    j = j + 1;
                }
                proof {
                    assert(usable_frames_of(rs.take(i + 1)) == pre + region_frames(r));
                }
            } else {
                proof {
                    assert(usable_frames_of(rs.take(i + 1)) == pre + seq![]);
                    assert(pre + Seq::<u64>::empty() == pre);
                }
            }
            i = i + 1;
        }
        proof {
            assert(rs.take(rs.len() as int) == rs);
        }
        out
    }

    /// Counts the usable regions of the map, their whole pages and their bytes.
    pub fn memory_summary(&self) -> (s: MemorySummary)
        requires
            usable_bytes_of(self.regions()) <= u64::MAX,
        ensures
            s.regions == usable_regions_of(self.regions()).len(),
            s.pages == usable_pages_of(self.regions()),
            s.bytes == usable_bytes_of(self.regions()),
    {
        let ghost rs = self.memory_map@;
        let mut regions: usize = 0;
        let mut pages: u64 = 0;
        let mut bytes: u64 = 0;
        let mut i: usize = 0;
        proof {
            lemma_sums_prefix(rs, 0);
        }
        while i < self.memory_map.len()
            invariant
                rs == self.memory_map@,
                0 <= i <= rs.len(),
                usable_bytes_of(rs) <= u64::MAX,
                regions == usable_regions_of(rs.take(i as int)).len(),
                regions <= i,
                pages == usable_pages_of(rs.take(i as int)),
                bytes == usable_bytes_of(rs.take(i as int)),
                pages <= bytes,
            decreases rs.len() - i,
        {
            let r = self.memory_map[i];
            proof {
                assert(rs.take(i + 1).drop_last() == rs.take(i as int));
                lemma_sums_prefix(rs, i + 1);
            }
            if r.kind == MemoryRegionKind::Usable && r.start <= r.end {
                let size = r.end - r.start;
                regions = regions + 1;
                pages = pages + size / PAGE_SIZE;
                bytes = bytes + size;
            } else if r.kind == MemoryRegionKind::Usable {
                regions = regions + 1;
            }
            i = i + 1;
        }
        proof {
            assert(rs.take(rs.len() as int) == rs);
        }
        MemorySummary { regions, pages, bytes }
    }

    /// The next frame of the sequence, or `None` once it is used up; the
    /// cursor moves on by one either way.
    pub fn allocate_frame(&mut self) -> (r: Option<PhysFrame>)
        requires
            old(self).wf(),
            old(self).cursor() < usize::MAX,
        ensures
            final(self).wf(),
            final(self).regions() == old(self).regions(),
            final(self).cursor() == old(self).cursor() + 1,
            old(self).cursor() < old(self).frames().len() ==> r == Some(
                PhysFrame { start: old(self).frames()[old(self).cursor() as int] },
            ),
            old(self).cursor() >= old(self).frames().len() ==> r is None,
            r == frame_at(old(self).frames(), old(self).cursor()),
    {
        let frame = self.nth_usable_frame(self.next);
        self.next = self.next + 1;
        frame
    }
}

/// The sums over a prefix of the map are at most the sums over the map.
proof fn lemma_sums_prefix(rs: Seq<MemoryRegion>, i: int)
    requires
        0 <= i <= rs.len(),
    ensures
        usable_bytes_of(rs.take(i)) <= usable_bytes_of(rs),
        usable_pages_of(rs.take(i)) <= usable_bytes_of(rs.take(i)),
    decreases rs.len() - i,
{
    if i < rs.len() {
        lemma_sums_prefix(rs, i + 1);
        assert(rs.take(i + 1).drop_last() == rs.take(i));
    } else {
        assert(rs.take(i) == rs);
    }
    lemma_pages_below_bytes(rs.take(i));
}

proof fn lemma_pages_below_bytes(rs: Seq<MemoryRegion>)
    ensures
        usable_pages_of(rs) <= usable_bytes_of(rs),
    decreases rs.len(),
{
    if rs.len() > 0 {
        lemma_pages_below_bytes(rs.drop_last());
    }
}

/// The frames of a prefix of the map are a prefix of the frames of the map.
proof fn lemma_prefix_frames(rs: Seq<MemoryRegion>, i: int)
    requires
        0 <= i <= rs.len(),
    ensures
        usable_frames_of(rs.take(i)).len() <= usable_frames_of(rs).len(),
        forall|k: int|
            0 <= k < usable_frames_of(rs.take(i)).len() ==> #[trigger] usable_frames_of(rs.take(i))[k]
                == usable_frames_of(rs)[k],
    decreases rs.len() - i,
{
    if i < rs.len() {
        lemma_prefix_frames(rs, i + 1);
        assert(rs.take(i + 1).drop_last() == rs.take(i));
        let a = usable_frames_of(rs.take(i));
        let b = usable_frames_of(rs.take(i + 1));
        assert forall|k: int| 0 <= k < a.len() implies #[trigger] a[k] == usable_frames_of(rs)[k] by {
            assert(a[k] == b[k]);
        }
    } else {
        assert(rs.take(i) == rs);
    }
}

/// Usable regions listed in ascending address order, none overlapping a
/// later one; other regions may lie anywhere.
pub open spec fn ascending_regions(rs: Seq<MemoryRegion>) -> bool {
    forall|i: int, j: int|
        #![trigger rs[i], rs[j]]
        0 <= i < j < rs.len() && rs[i].kind == MemoryRegionKind::Usable && rs[j].kind
            == MemoryRegionKind::Usable ==> rs[i].end <= rs[j].start
}

proof fn lemma_ascending_prefix(rs: Seq<MemoryRegion>)
    requires
        rs.len() > 0,
        ascending_regions(rs),
    ensures
        ascending_regions(rs.drop_last()),
        rs.last().kind == MemoryRegionKind::Usable ==> forall|i: int|
            0 <= i < rs.len() - 1 && #[trigger] rs.drop_last()[i].kind == MemoryRegionKind::Usable
                ==> rs.drop_last()[i].end <= rs.last().start,
{
    let init = rs.drop_last();
    assert forall|i: int, j: int|
        #![trigger init[i], init[j]]
        0 <= i < j < init.len() && init[i].kind == MemoryRegionKind::Usable && init[j].kind
            == MemoryRegionKind::Usable implies init[i].end <= init[j].start by {
        assert(init[i] == rs[i] && init[j] == rs[j]);
    }
    if rs.last().kind == MemoryRegionKind::Usable {
        assert forall|i: int|
            0 <= i < rs.len() - 1 && #[trigger] init[i].kind == MemoryRegionKind::Usable implies init[i].end
                <= rs.last().start by {
            assert(init[i] == rs[i] && rs.last() == rs[rs.len() - 1]);
        }
    }
}

/// Every usable frame of `rs` is aligned, and lies below `e` when every
/// usable region ends at or below `e`.
proof fn lemma_frames_below_end(rs: Seq<MemoryRegion>, e: int)
    requires
        forall|i: int|
            0 <= i < rs.len() && #[trigger] rs[i].kind == MemoryRegionKind::Usable ==> rs[i].end <= e,
    ensures
        forall|k: int|
            0 <= k < usable_frames_of(rs).len() ==> #[trigger] usable_frames_of(rs)[k] < e
                && usable_frames_of(rs)[k] % 4096 == 0,
    decreases rs.len(),
{
    if rs.len() > 0 {
        let init = rs.drop_last();
        assert forall|i: int|
            0 <= i < init.len() && #[trigger] init[i].kind == MemoryRegionKind::Usable implies init[i].end
                <= e by {
            assert(init[i] == rs[i]);
        }
        lemma_frames_below_end(init, e);
        let r = rs.last();
        assert(r == rs[rs.len() - 1]);
        let a = usable_frames_of(init);
        assert forall|k: int| 0 <= k < usable_frames_of(rs).len() implies #[trigger] usable_frames_of(
            rs,
        )[k] < e && usable_frames_of(rs)[k] % 4096 == 0 by {
            if k >= a.len() {
                lemma_region_frame(r, k - a.len());
                assert(usable_frames_of(rs)[k] == region_frames(r)[k - a.len()]);
            } else {
                assert(usable_frames_of(rs)[k] == a[k]);
            }
        }
    }
}

/// The usable frames of regions listed in ascending, disjoint order come
/// aligned and in strictly increasing order, each at least 4 KiB above the
/// one before, so no frame is handed out twice.
pub proof fn lemma_frames_ascending(rs: Seq<MemoryRegion>)
    requires
        ascending_regions(rs),
    ensures
        forall|i: int|
            0 <= i < usable_frames_of(rs).len() ==> #[trigger] usable_frames_of(rs)[i] % 4096 == 0,
        forall|i: int, j: int|
            0 <= i < j < usable_frames_of(rs).len() ==> #[trigger] usable_frames_of(rs)[i] + (j - i)
                * 4096 <= #[trigger] usable_frames_of(rs)[j],
    decreases rs.len(),
{
    if rs.len() > 0 {
        let init = rs.drop_last();
        let r = rs.last();
        lemma_ascending_prefix(rs);
        lemma_frames_ascending(init);
        if r.kind == MemoryRegionKind::Usable {
            lemma_frames_below_end(init, r.start as int);
        }
        let a = usable_frames_of(init);
        let f = usable_frames_of(rs);
        let b = if r.kind == MemoryRegionKind::Usable {
            region_frames(r)
        } else {
            seq![]
        };
        assert(f == a + b);
        assert forall|i: int| 0 <= i < f.len() implies #[trigger] f[i] % 4096 == 0 by {
            if i >= a.len() {
                lemma_region_frame(r, i - a.len());
                assert(f[i] == b[i - a.len()]);
            } else {
                assert(f[i] == a[i]);
            }
        }
        assert forall|i: int, j: int| 0 <= i < j < f.len() implies #[trigger] f[i] + (j - i) * 4096
            <= #[trigger] f[j] by {
            if j < a.len() {
                assert(f[i] == a[i] && f[j] == a[j]);
            } else if i >= a.len() {
                lemma_region_frame(r, i - a.len());
                lemma_region_frame(r, j - a.len());
                assert(f[i] == b[i - a.len()] && f[j] == b[j - a.len()]);
                assert((first_frame(r) + (i - a.len()) * 4096) + (j - i) * 4096 == first_frame(r) + (j
                    - a.len()) * 4096) by (nonlinear_arith);
            } else {
                lemma_region_frame(r, j - a.len());
                assert(f[i] == a[i] && f[j] == b[j - a.len()]);
                let last = a.len() - 1;
                let ff = first_frame(r);
                assert(a[last] < r.start && a[last] % 4096 == 0);
                assert(a[last] + 4096 <= ff) by (nonlinear_arith)
                    requires
                        a[last] < r.start,
                        r.start <= ff,
                        a[last] % 4096 == 0,
                        ff % 4096 == 0,
                {}
                if i < last {
                    assert(a[i] + (last - i) * 4096 <= a[last]);
                }
                assert(f[j] == first_frame(r) + (j - a.len()) * 4096);
                assert(f[i] + (j - i) * 4096 <= f[j]) by (nonlinear_arith)
                    requires
                        i <= last,
                        last == a.len() - 1,
                        a[i] + (last - i) * 4096 <= a[last],
                        a[last] + 4096 <= first_frame(r),
                        f[i] == a[i],
                        f[j] == first_frame(r) + (j - a.len()) * 4096,
                {}
            }
        }
    }
}

/// Frame `f` starts inside a usable region of `rs`.
pub open spec fn inside_usable_region(rs: Seq<MemoryRegion>, f: u64) -> bool {
    exists|i: int|
        #![trigger rs[i]]
        0 <= i < rs.len() && rs[i].kind == MemoryRegionKind::Usable && rs[i].start <= f && f
            < rs[i].end
}

/// Every usable frame starts inside one of the usable regions it came from.
pub proof fn lemma_frames_inside_regions(rs: Seq<MemoryRegion>)
    ensures
        forall|k: int|
            0 <= k < usable_frames_of(rs).len() ==> inside_usable_region(
                rs,
                #[trigger] usable_frames_of(rs)[k],
            ),
    decreases rs.len(),
{
    if rs.len() > 0 {
        let init = rs.drop_last();
        lemma_frames_inside_regions(init);
        let r = rs.last();
        let n = rs.len() - 1;
        assert(r == rs[n]);
        let a = usable_frames_of(init);
        assert forall|k: int| 0 <= k < usable_frames_of(rs).len() implies inside_usable_region(
            rs,
            #[trigger] usable_frames_of(rs)[k],
        ) by {
            let f = usable_frames_of(rs)[k];
            if k >= a.len() {
                lemma_region_frame(r, k - a.len());
                assert(f == region_frames(r)[k - a.len()]);
                assert(rs[n].kind == MemoryRegionKind::Usable && rs[n].start <= f && f < rs[n].end);
            } else {
                assert(f == a[k]);
                assert(inside_usable_region(init, a[k]));
                let i = choose|i: int|
                    #![trigger init[i]]
                    0 <= i < init.len() && init[i].kind == MemoryRegionKind::Usable && init[i].start
                        <= f && f < init[i].end;
                assert(init[i] == rs[i]);
            }
        }
    }
}

/// What a frame request returns when the cursor stands at `c`.
pub open spec fn frame_at(frames: Seq<u64>, c: nat) -> Option<PhysFrame> {
    if c < frames.len() {
        Some(PhysFrame { start: frames[c as int] })
    } else {
        None
    }
}

/// The results of `n` successive frame requests, the first with the cursor
/// at `c`; each request moves the cursor on by one, found or not.
pub open spec fn allocations(frames: Seq<u64>, c: nat, n: nat) -> Seq<Option<PhysFrame>>
    decreases n,
{
    if n == 0 {
        seq![]
    } else {
        allocations(frames, c, (n - 1) as nat).push(frame_at(frames, (c + n - 1) as nat))
    }
}

/// `n` successive requests on a fresh allocator with `C` frames: the first
/// `min(n, C)` return the frames in order, and every later one returns
/// `None`, with no retry and no backfill.
pub proof fn lemma_successive_allocations(frames: Seq<u64>, n: nat)
    ensures
        allocations(frames, 0, n).len() == n,
        forall|i: int|
            0 <= i < n && i < frames.len() ==> #[trigger] allocations(frames, 0, n)[i] == Some(
                PhysFrame { start: frames[i] },
            ),
        forall|i: int| 0 <= i < n && i >= frames.len() ==> #[trigger] allocations(frames, 0, n)[i] is None,
    decreases n,
{
    if n > 0 {
        lemma_successive_allocations(frames, (n - 1) as nat);
    }
}

} // verus!
