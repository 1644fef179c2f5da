//! Physical frame allocator over the boot-time memory map.

use vstd::prelude::*;

verus! {

/// Size in bytes of a physical frame (and of a virtual page).
pub const FRAME_SIZE: u64 = 4096;

/// Physical addresses on this architecture are at most 52 bits wide.
pub const PHYS_ADDR_LIMIT: u64 = 0x10_0000_0000_0000;

/// One entry of the memory map handed over by the boot loader.
#[derive(Clone, Copy, Debug, PartialEq, Eq, Structural)]
pub struct MemoryRegion {
    pub start: u64,
    pub len: u64,
    pub usable: bool,
}

/// Errors of the frame allocator.
#[derive(Clone, Copy, Debug, PartialEq, Eq, Structural)]
pub enum FrameError {
    /// Every usable frame has already been handed out.
    OutOfMemory,
}

pub open spec fn region_end(r: MemoryRegion) -> int {
    r.start + r.len
}

/// The first frame boundary at or above the start of the region.
pub open spec fn first_frame(r: MemoryRegion) -> int {
    if r.start % 4096 == 0 {
        r.start as int
    } else {
        r.start - r.start % 4096 + 4096
    }
}

/// How many whole, aligned frames a region offers for allocation.
pub open spec fn frame_count(r: MemoryRegion) -> nat {
    if r.usable && region_end(r) > first_frame(r) {
        ((region_end(r) - first_frame(r)) / 4096) as nat
    } else {
        0
    }
}

/// The frames of one region, in ascending order.
pub open spec fn frames_of(r: MemoryRegion) -> Seq<int> {
    Seq::new(frame_count(r), |i: int| first_frame(r) + 4096 * i)
}

/// Every frame the allocator can hand out, in the order it hands them out:
/// region by region as the map lists them, ascending within each region.
pub open spec fn usable_frames(rs: Seq<MemoryRegion>) -> Seq<int>
    decreases rs.len(),
{
    if rs.len() == 0 {
        Seq::empty()
    } else {
        usable_frames(rs.drop_last()) + frames_of(rs.last())
    }
}

/// The sum of the frame counts of the regions.
pub open spec fn total_frame_count(rs: Seq<MemoryRegion>) -> nat
    decreases rs.len(),
{
    if rs.len() == 0 {
        0
    } else {
        total_frame_count(rs.drop_last()) + frame_count(rs.last())
    }
}

/// A memory map as the firmware reports it: regions listed in ascending
/// order, pairwise disjoint, and within the physical address space.
pub open spec fn valid_memory_map(rs: Seq<MemoryRegion>) -> bool {
    &&& forall|i: int| 0 <= i < rs.len() ==> region_end(#[trigger] rs[i]) <= PHYS_ADDR_LIMIT
    &&& forall|i: int, j: int|
        0 <= i < j < rs.len() ==> region_end(#[trigger] rs[i]) <= (#[trigger] rs[j]).start
}

/// `x` is an aligned frame lying wholly inside a usable region of `rs`.
pub open spec fn in_usable_region(rs: Seq<MemoryRegion>, x: int) -> bool {
    &&& x % 4096 == 0
    &&& exists|j: int|
        0 <= j < rs.len() && (#[trigger] rs[j]).usable && rs[j].start <= x && x + 4096
            <= region_end(rs[j])
}

proof fn lemma_first_frame(r: MemoryRegion)
    ensures
        first_frame(r) % 4096 == 0,
        r.start <= first_frame(r) < r.start + 4096,
{
    let s = r.start as int;
    assert((s - s % 4096) % 4096 == 0) by (nonlinear_arith);
    assert((s - s % 4096 + 4096) % 4096 == 0) by (nonlinear_arith);
}

proof fn lemma_frames_of(r: MemoryRegion, i: int)
    requires
        0 <= i < frame_count(r),
    ensures
        frames_of(r)[i] % 4096 == 0,
        r.usable,
        r.start <= frames_of(r)[i],
        frames_of(r)[i] + 4096 <= region_end(r),
{
    lemma_first_frame(r);
    let f = first_frame(r);
    let e = region_end(r);
    assert((f + 4096 * i) % 4096 == 0) by (nonlinear_arith)
        requires
            f % 4096 == 0,
    ;
    assert(f + 4096 * i + 4096 <= e) by (nonlinear_arith)
        requires
            0 <= i < (e - f) / 4096,
            e > f,
    ;
}

proof fn lemma_usable_frames_len(rs: Seq<MemoryRegion>)
    ensures
        usable_frames(rs).len() == total_frame_count(rs),
    decreases rs.len(),
{
    if rs.len() > 0 {
        lemma_usable_frames_len(rs.drop_last());
    }
}

/// The frames of a prefix of the map come first among the frames of the map.
proof fn lemma_prefix(rs: Seq<MemoryRegion>, k: int)
    requires
        0 <= k <= rs.len(),
    ensures
        usable_frames(rs.take(k)).len() <= usable_frames(rs).len(),
        forall|n: int|
            0 <= n < usable_frames(rs.take(k)).len() ==> usable_frames(rs.take(k))[n]
                == usable_frames(rs)[n],
    decreases rs.len(),
{
    if k == rs.len() {
        assert(rs.take(k) =~= rs);
    } else {
        assert(rs.take(k) =~= rs.drop_last().take(k));
        lemma_prefix(rs.drop_last(), k);
    }
}

/// Each frame lies in a usable region, aligned, and the frames rise by at
/// least one frame from each to the next.
proof fn lemma_usable_frames_shape(rs: Seq<MemoryRegion>)
    requires
        valid_memory_map(rs),
    ensures
        forall|n: int| 0 <= n < usable_frames(rs).len() ==> in_usable_region(rs, #[trigger] usable_frames(rs)[n]),
        forall|a: int, b: int|
            0 <= a < b < usable_frames(rs).len() ==> #[trigger] usable_frames(rs)[a] + 4096
                <= #[trigger] usable_frames(rs)[b],
        rs.len() > 0 ==> forall|n: int|
            0 <= n < usable_frames(rs).len() ==> #[trigger] usable_frames(rs)[n] + 4096 <= region_end(rs.last()),
    decreases rs.len(),
{
    if rs.len() > 0 {
        let p = rs.drop_last();
        let r = rs.last();
        lemma_usable_frames_shape(p);
        let fp = usable_frames(p);
        let fr = frames_of(r);
        let f = usable_frames(rs);
        assert(f =~= fp + fr);
        assert forall|n: int| 0 <= n < f.len() implies in_usable_region(rs, #[trigger] f[n]) by {
            if n < fp.len() {
                assert(in_usable_region(p, fp[n]));
                let j = choose|j: int|
                    0 <= j < p.len() && (#[trigger] p[j]).usable && p[j].start <= fp[n] && fp[n]
                        + 4096 <= region_end(p[j]);
                assert(rs[j] == p[j]);
            } else {
                lemma_frames_of(r, n - fp.len());
                assert(rs[rs.len() - 1] == r);
            }
        }
        assert forall|n: int| 0 <= n < fp.len() implies #[trigger] fp[n] + 4096 <= r.start by {
            assert(in_usable_region(p, fp[n]));
            let j = choose|j: int|
                0 <= j < p.len() && (#[trigger] p[j]).usable && p[j].start <= fp[n] && fp[n]
                    + 4096 <= region_end(p[j]);
            assert(rs[j] == p[j]);
            assert(region_end(rs[j]) <= rs[rs.len() - 1].start);
        }
        assert forall|n: int| 0 <= n < f.len() implies #[trigger] f[n] + 4096 <= region_end(r) by {
            if n < fp.len() {
                assert(fp[n] + 4096 <= r.start);
            } else {
                lemma_frames_of(r, n - fp.len());
            }
        }
        assert forall|a: int, b: int| 0 <= a < b < f.len() implies #[trigger] f[a] + 4096
            <= #[trigger] f[b] by {
            if b < fp.len() {
                assert(fp[a] + 4096 <= fp[b]);
            } else if a < fp.len() {
                lemma_frames_of(r, b - fp.len());
                assert(fp[a] + 4096 <= r.start);
            } else {
                lemma_frames_of(r, a - fp.len());
                lemma_frames_of(r, b - fp.len());
            }
        }
    }
}

/// Frames are handed out one frame apart or more, so the `n`-th lies at or
/// above `n` frames.
proof fn lemma_frame_lower_bound(rs: Seq<MemoryRegion>, n: int)
    requires
        valid_memory_map(rs),
        0 <= n < usable_frames(rs).len(),
    ensures
        usable_frames(rs)[n] >= 4096 * n,
        usable_frames(rs)[n] + 4096 <= PHYS_ADDR_LIMIT,
    decreases n,
{
    lemma_usable_frames_shape(rs);
    assert(in_usable_region(rs, usable_frames(rs)[n]));
    if n > 0 {
        lemma_frame_lower_bound(rs, n - 1);
        assert(usable_frames(rs)[n - 1] + 4096 <= usable_frames(rs)[n]);
    } else {
        assert(in_usable_region(rs, usable_frames(rs)[0]));
    }
}

/// Frame uniqueness: the frames an allocator hands out over the same map
/// (see `FrameAllocator::allocate_frame`) are pairwise distinct, each is
/// frame-aligned, and each lies wholly inside a region marked usable.
pub proof fn lemma_frames_unique_aligned_usable(rs: Seq<MemoryRegion>)
    requires
        valid_memory_map(rs),
    ensures
        forall|a: int, b: int|
            0 <= a < usable_frames(rs).len() && 0 <= b < usable_frames(rs).len() && a != b
                ==> usable_frames(rs)[a] != usable_frames(rs)[b],
        forall|n: int| 0 <= n < usable_frames(rs).len() ==> in_usable_region(rs, #[trigger] usable_frames(rs)[n]),
{
    lemma_usable_frames_shape(rs);
    assert forall|a: int, b: int|
        0 <= a < usable_frames(rs).len() && 0 <= b < usable_frames(rs).len() && a != b
        implies usable_frames(rs)[a] != usable_frames(rs)[b] by {
        if a < b {
            assert(usable_frames(rs)[a] + 4096 <= usable_frames(rs)[b]);
        } else {
            assert(usable_frames(rs)[b] + 4096 <= usable_frames(rs)[a]);
        }
    }
}

/// Ordering: the frames come in strictly ascending physical-address order.
pub proof fn lemma_frames_ascending(rs: Seq<MemoryRegion>)
    requires
        valid_memory_map(rs),
    ensures
        forall|a: int, b: int|
            0 <= a < b < usable_frames(rs).len() ==> usable_frames(rs)[a] < usable_frames(rs)[b],
{
    lemma_usable_frames_shape(rs);
    assert forall|a: int, b: int| 0 <= a < b < usable_frames(rs).len() implies usable_frames(rs)[a]
        < usable_frames(rs)[b] by {
        assert(usable_frames(rs)[a] + 4096 <= usable_frames(rs)[b]);
    }
}

/// Exhaustion boundary: a map whose usable regions sum to exactly `K` whole
/// frames offers exactly `K` frames.
pub proof fn lemma_exhaustion_boundary(rs: Seq<MemoryRegion>)
    ensures
        usable_frames(rs).len() == total_frame_count(rs),
{
    lemma_usable_frames_len(rs);
}

/// Number of whole frames in `r` that the allocator may hand out.
fn region_frame_count(r: &MemoryRegion) -> (c: u64)
    requires
        region_end(*r) <= PHYS_ADDR_LIMIT,
    ensures
        c == frame_count(*r),
        c > 0 ==> c == (region_end(*r) - first_frame(*r)) / 4096,
{
    if !r.usable {
        return 0;
    }
    let first = region_first_frame(r);
    let end = r.start + r.len;
    if end > first {
        (end - first) / FRAME_SIZE
    } else {
        0
    }
}

fn region_first_frame(r: &MemoryRegion) -> (f: u64)
    requires
        region_end(*r) <= PHYS_ADDR_LIMIT,
    ensures
        f == first_frame(*r),
{
    let rem = r.start % FRAME_SIZE;
    if rem == 0 {
        r.start
    } else {
        r.start - rem + FRAME_SIZE
    }
}

/// The `n`-th frame of the map, counting from zero, if there is one.
fn nth_usable_frame(regions: &Vec<MemoryRegion>, n: u64) -> (r: Option<u64>)
    requires
        valid_memory_map(regions@),
    ensures
        n < usable_frames(regions@).len() ==> r == Some(usable_frames(regions@)[n as int] as u64),
        n >= usable_frames(regions@).len() ==> r is None,
{
    let ghost rs = regions@;
    let mut rem: u64 = n;
    let mut i: usize = 0;
    proof {
        assert(rs.take(0) =~= Seq::<MemoryRegion>::empty());
    }
    while i < regions.len()
        invariant
            0 <= i <= rs.len(),
            rs == regions@,
            valid_memory_map(rs),
            usable_frames(rs.take(i as int)).len() + rem == n,
        decreases rs.len() - i,
    {
        let r = regions[i];
        assert(rs.take(i + 1).drop_last() =~= rs.take(i as int));
        assert(rs.take(i + 1).last() == r);
        let c = region_frame_count(&r);
        if rem < c {
            proof {
                lemma_prefix(rs, i + 1);
                lemma_frames_of(r, rem as int);
            }
            let first = region_first_frame(&r);
            return Some(first + rem * FRAME_SIZE);
        }
        rem = rem - c;
        i = i + 1;
    }
    assert(rs.take(i as int) =~= rs);
    None
}

/// Hands out, one at a time and never twice, the usable frames of a memory
/// map. Frames are not given back: there is no `free`, so the allocator is a
/// cursor over `usable_frames` of its map and needs no record of what it
/// handed out.
pub struct FrameAllocator {
    regions: Vec<MemoryRegion>,
    next: u64,
}

impl FrameAllocator {
    /// The memory map the allocator was made from.
    pub closed spec fn memory_map(&self) -> Seq<MemoryRegion> {
        self.regions@
    }

    /// How many frames have been handed out so far.
    pub closed spec fn issued(&self) -> nat {
        self.next as nat
    }

    /// The frames still to be handed out, in order.
    pub open spec fn remaining(&self) -> Seq<int> {
        usable_frames(self.memory_map()).skip(self.issued() as int)
    }

    pub closed spec fn wf(&self) -> bool {
        &&& valid_memory_map(self.regions@)
        &&& self.next <= usable_frames(self.regions@).len()
    }

    /// Makes an allocator over `regions`, which is read and never changed.
    pub fn init(regions: Vec<MemoryRegion>) -> (a: FrameAllocator)
        requires
            valid_memory_map(regions@),
        ensures
            a.wf(),
            a.memory_map() == regions@,
            a.issued() == 0,
    {
        FrameAllocator { regions, next: 0 }
    }

    /// The memory map, as given to `init`.
    pub fn regions(&self) -> (r: &Vec<MemoryRegion>)
        ensures
            r@ == self.memory_map(),
    {
        &self.regions
    }

    /// The next usable frame not yet handed out, or `OutOfMemory` once the
    /// map's frames are exhausted.
    pub fn allocate_frame(&mut self) -> (r: Result<u64, FrameError>)
        requires
            old(self).wf(),
        ensures
            final(self).wf(),
            final(self).memory_map() == old(self).memory_map(),
            old(self).issued() < usable_frames(old(self).memory_map()).len() ==> {
                &&& r == Ok::<u64, FrameError>(
                    usable_frames(old(self).memory_map())[old(self).issued() as int] as u64,
                )
                &&& final(self).issued() == old(self).issued() + 1
            },
            old(self).issued() >= usable_frames(old(self).memory_map()).len() ==> {
                &&& r == Err::<u64, FrameError>(FrameError::OutOfMemory)
                &&& final(self).issued() == old(self).issued()
            },
    {
        match nth_usable_frame(&self.regions, self.next) {
            Some(f) => {
                proof {
                    lemma_frame_lower_bound(self.regions@, self.next as int);
                }
                self.next = self.next + 1;
                Ok(f)
            },
            None => Err(FrameError::OutOfMemory),
        }
    }
}

/// A well-formed allocator holds a valid map and has handed out no more
/// frames than the map offers.
pub proof fn lemma_allocator_wf(a: FrameAllocator)
    requires
        a.wf(),
    ensures
        valid_memory_map(a.memory_map()),
        a.issued() <= usable_frames(a.memory_map()).len(),
        forall|n: int|
            0 <= n < usable_frames(a.memory_map()).len() ==> #[trigger] usable_frames(a.memory_map())[n]
                % 4096 == 0 && 0 <= usable_frames(a.memory_map())[n] && usable_frames(a.memory_map())[n]
                + 4096 <= PHYS_ADDR_LIMIT,
{
    let rs = a.memory_map();
    lemma_usable_frames_shape(rs);
    assert forall|n: int| 0 <= n < usable_frames(rs).len() implies #[trigger] usable_frames(rs)[n]
        % 4096 == 0 && 0 <= usable_frames(rs)[n] && usable_frames(rs)[n] + 4096
        <= PHYS_ADDR_LIMIT by {
        lemma_frame_lower_bound(rs, n);
    }
}

/// Allocation ordering determinism: two allocators over the same map that
/// have handed out the same number of frames hand out the same frame next,
/// so fresh allocators over one map produce one and the same sequence.
pub proof fn lemma_allocation_deterministic(a: FrameAllocator, b: FrameAllocator)
    requires
        a.memory_map() == b.memory_map(),
        a.issued() == b.issued(),
    ensures
        a.remaining() == b.remaining(),
{
}

} // verus!
