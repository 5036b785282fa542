//! Physical frame allocation from the boot-time memory map: every usable
//! region is cut into 4 KiB frames, handed out in order, each at most once.
use vstd::prelude::*;

verus! {

/// Size of a physical frame, and of a page, in bytes.
pub const FRAME_SIZE: u64 = 4096;

/// What the boot stage says a physical memory region may be used for.
#[derive(Debug, Clone, Copy, PartialEq, Eq, Structural)]
pub enum MemoryRegionType {
    /// Free for the kernel to use.
    Usable,
    /// Anything else: firmware, devices, the kernel image, boot data.
    Reserved,
}

/// A physical address range `start_addr..end_addr` with its type.
#[derive(Debug, Clone, Copy, PartialEq, Eq, Structural)]
pub struct MemoryRegion {
    pub start_addr: u64,
    pub end_addr: u64,
    pub region_type: MemoryRegionType,
}

/// The first frame boundary at or above address `a`.
pub open spec fn first_boundary(a: int) -> int {
    if a % (FRAME_SIZE as int) == 0 {
        a
    } else {
        a - a % (FRAME_SIZE as int) + FRAME_SIZE
    }
}

/// The frames that lie wholly inside `start..end`, in increasing order.
pub open spec fn range_frames(start: int, end: int) -> Seq<u64> {
    let s = first_boundary(start);
    if s + FRAME_SIZE <= end {
        Seq::new(((end - s) / (FRAME_SIZE as int)) as nat, |i: int| (s + FRAME_SIZE * i) as u64)
    } else {
        Seq::empty()
    }
}

/// The frames that a region contributes: those of its range if it is
/// usable, none otherwise.
pub open spec fn region_frames(r: MemoryRegion) -> Seq<u64> {
    if r.region_type == MemoryRegionType::Usable {
        range_frames(r.start_addr as int, r.end_addr as int)
    } else {
        Seq::empty()
    }
}

/// The frames of the regions from index `k` on, region after region.
pub open spec fn frames_from(regions: Seq<MemoryRegion>, k: int) -> Seq<u64>
    decreases regions.len() - k,
{
    if k < 0 || k >= regions.len() {
        Seq::empty()
    } else {
        region_frames(regions[k]) + frames_from(regions, k + 1)
    }
}

/// Every frame that a memory map yields, in the order of allocation.
pub open spec fn all_frames(regions: Seq<MemoryRegion>) -> Seq<u64> {
    frames_from(regions, 0)
}

/// No two usable regions of the map overlap.
pub open spec fn regions_valid(regions: Seq<MemoryRegion>) -> bool {
    forall|k: int, l: int|
        0 <= k < l < regions.len() && (#[trigger] regions[k]).region_type == MemoryRegionType::Usable
            && (#[trigger] regions[l]).region_type == MemoryRegionType::Usable ==> regions[k].end_addr
            <= regions[l].start_addr || regions[l].end_addr <= regions[k].start_addr
}

/// The frame at `f` lies wholly inside a usable region of the map.
pub open spec fn in_usable_region(regions: Seq<MemoryRegion>, f: u64) -> bool {
    exists|k: int|
        0 <= k < regions.len() && (#[trigger] regions[k]).region_type == MemoryRegionType::Usable
            && regions[k].start_addr <= f && f + FRAME_SIZE <= regions[k].end_addr
}

/// Hands out the frames of a memory map's usable regions in order, each once.
pub struct BootInfoFrameAllocator {
    regions: Vec<MemoryRegion>,
    region: usize,
    next: u64,
    issued: Ghost<Seq<u64>>,
}

impl BootInfoFrameAllocator {
    /// The memory map the allocator was made from.
    pub closed spec fn regions(&self) -> Seq<MemoryRegion> {
        self.regions@
    }

    /// The frames handed out so far, in order.
    pub closed spec fn issued(&self) -> Seq<u64> {
        self.issued@
    }

    /// The frames still to come, in order.
    pub closed spec fn pending(&self) -> Seq<u64> {
        if self.region < self.regions@.len() {
            let r = self.regions@[self.region as int];
            let current = if r.region_type == MemoryRegionType::Usable {
                range_frames(self.next as int, r.end_addr as int)
            } else {
                Seq::empty()
            };
            current + frames_from(self.regions@, self.region + 1)
        } else {
            Seq::empty()
        }
    }

    pub closed spec fn wf(&self) -> bool {
        &&& self.region <= self.regions@.len()
        &&& self.issued@ + self.pending() == all_frames(self.regions@)
    }

    /// The frames handed out so far are the first ones of the map.
    pub proof fn lemma_issued_prefix(&self)
        requires
            self.wf(),
        ensures
            self.issued().len() <= all_frames(self.regions()).len(),
            self.issued() == all_frames(self.regions()).take(self.issued().len() as int),
    {
        assert(self.issued@ =~= (self.issued@ + self.pending()).take(self.issued@.len() as int));
    }

    /// Moves on to the start of the next region.
    fn advance(&mut self)
        requires
            old(self).region < old(self).regions@.len(),
        ensures
            final(self).regions@ == old(self).regions@,
            final(self).issued@ == old(self).issued@,
            final(self).region == old(self).region + 1,
            final(self).pending() == frames_from(old(self).regions@, old(self).region + 1),
    {
        let n = self.regions.len();
        self.region = self.region + 1;
        if self.region < n {
            self.next = self.regions[self.region].start_addr;
        }
    }

    /// The next frame of the map, or `None` once every usable frame has been
    /// handed out.
    pub fn allocate_frame(&mut self) -> (r: Option<u64>)
        requires
            old(self).wf(),
        ensures
            final(self).wf(),
            final(self).regions() == old(self).regions(),
            r == if old(self).issued().len() < all_frames(old(self).regions()).len() {
                Some(all_frames(old(self).regions())[old(self).issued().len() as int])
            } else {
                None::<u64>
            },
            final(self).issued() == match r {
                Some(f) => old(self).issued().push(f),
                None => old(self).issued(),
            },
    {
        let ghost all = all_frames(self.regions@);
        loop
            invariant
                self.region <= self.regions@.len(),
                self.regions@ == old(self).regions@,
                self.issued@ == old(self).issued@,
                self.pending() == old(self).pending(),
                all == all_frames(self.regions@),
                self.issued@ + self.pending() == all,
            decreases self.regions@.len() - self.region,
        {
            if self.region >= self.regions.len() {
                assert(self.issued@ =~= all);
                return None;
            }
            let r = self.regions[self.region];
            if r.region_type == MemoryRegionType::Usable && self.next < r.end_addr {
                let rem = self.next % FRAME_SIZE;
                let pad: u64 = if rem == 0 {
                    0
                } else {
                    FRAME_SIZE - rem
                };
                if r.end_addr - self.next >= pad + FRAME_SIZE {
                    let frame = self.next + pad;
                    let ghost before = self.pending();
                    proof {
                        assert(frame == first_boundary(self.next as int));
                        lemma_range_frames_step(self.next as int, r.end_addr as int);
                    }
                    self.next = frame + FRAME_SIZE;
                    proof {
                        assert(self.pending() =~= before.drop_first());
                        assert(self.issued@.push(frame) + self.pending() =~= all);
                    }
                    self.issued = Ghost(self.issued@.push(frame));
                    return Some(frame);
                }
            }
            proof {
                let r = self.regions@[self.region as int];
                assert(first_boundary(self.next as int) >= self.next);
                if r.region_type == MemoryRegionType::Usable {
                    assert(range_frames(self.next as int, r.end_addr as int) =~= Seq::<u64>::empty());
                }
            }
            self.advance();
        }
    }
}

/// An allocator over `memory_map` that has handed out nothing yet.
pub fn init_frame_allocator(memory_map: Vec<MemoryRegion>) -> (a: BootInfoFrameAllocator)
    ensures
        a.wf(),
        a.regions() == memory_map@,
        a.issued() == Seq::<u64>::empty(),
{
    let next = if memory_map.len() > 0 {
        memory_map[0].start_addr
    } else {
        0
    };
    let a = BootInfoFrameAllocator { regions: memory_map, region: 0, next, issued: Ghost(Seq::empty()) };
    proof {
        if a.regions().len() > 0 {
            assert(a.pending() == frames_from(a.regions(), 0));
        }
        assert(a.issued() + a.pending() =~= all_frames(a.regions()));
    }
    a
}

/// The frame at position `i` of a range is the `i`-th frame after the
/// range's first boundary, and lies wholly inside the range.
proof fn lemma_range_frame_at(a: int, e: int, i: int)
    requires
        0 <= a,
        e <= u64::MAX,
        0 <= i < range_frames(a, e).len(),
    ensures
        range_frames(a, e)[i] == first_boundary(a) + FRAME_SIZE * i,
        a <= range_frames(a, e)[i],
        range_frames(a, e)[i] + FRAME_SIZE <= e,
        range_frames(a, e)[i] % FRAME_SIZE == 0,
{
    let s = first_boundary(a);
    let q = (e - s) / 4096;
    assert(s % 4096 == 0) by {
        if a % 4096 != 0 {
            assert((a - a % 4096 + 4096) % 4096 == 0) by (nonlinear_arith);
        }
    }
    assert((s + 4096 * i) % 4096 == 0) by (nonlinear_arith)
        requires
            s % 4096 == 0,
            i >= 0,
    ;
    assert(s >= a);
    assert(i + 1 <= q);
    assert(4096 * q <= e - s) by (nonlinear_arith)
        requires
            q == (e - s) / 4096,
            e - s >= 0,
    ;
    assert(4096 * (i + 1) <= 4096 * q) by (nonlinear_arith)
        requires
            i + 1 <= q,
    ;
}

/// Frame `f` lies in a usable region of index `k` or later.
pub open spec fn in_usable_region_from(regions: Seq<MemoryRegion>, k: int, f: u64) -> bool {
    exists|j: int|
        k <= j < regions.len() && (#[trigger] regions[j]).region_type == MemoryRegionType::Usable
            && regions[j].start_addr <= f && f + FRAME_SIZE <= regions[j].end_addr
}

/// Each frame of the regions from index `k` on is frame aligned and lies
/// wholly in a usable region of index `k` or later.
proof fn lemma_frames_from_inside(regions: Seq<MemoryRegion>, k: int)
    requires
        0 <= k <= regions.len(),
    ensures
        forall|i: int|
            0 <= i < frames_from(regions, k).len() ==> in_usable_region_from(
                regions,
                k,
                #[trigger] frames_from(regions, k)[i],
            ) && frames_from(regions, k)[i] % FRAME_SIZE == 0,
    decreases regions.len() - k,
{
    if k < regions.len() {
        lemma_frames_from_inside(regions, k + 1);
        let r = regions[k];
        let head = region_frames(r);
        let tail = frames_from(regions, k + 1);
        let all = frames_from(regions, k);
        assert(all == head + tail);
        assert forall|i: int| 0 <= i < all.len() implies in_usable_region_from(regions, k, #[trigger] all[i])
            && all[i] % FRAME_SIZE == 0 by {
            if i < head.len() {
                lemma_range_frame_at(r.start_addr as int, r.end_addr as int, i);
                assert(regions[k].start_addr <= all[i] && all[i] + FRAME_SIZE <= regions[k].end_addr);
            } else {
                assert(all[i] == tail[i - head.len()]);
                assert(in_usable_region_from(regions, k + 1, tail[i - head.len()]));
            }
        }
    }
}

/// Every frame that any memory map yields is frame aligned and lies wholly
/// inside a region tagged usable.
pub proof fn lemma_frames_inside_usable(regions: Seq<MemoryRegion>)
    ensures
        forall|i: int|
            0 <= i < all_frames(regions).len() ==> in_usable_region(regions, #[trigger] all_frames(regions)[i])
                && all_frames(regions)[i] % FRAME_SIZE == 0,
{
    lemma_frames_from_inside(regions, 0);
    assert forall|i: int| 0 <= i < all_frames(regions).len() implies in_usable_region(
        regions,
        #[trigger] all_frames(regions)[i],
    ) && all_frames(regions)[i] % FRAME_SIZE == 0 by {
        assert(in_usable_region_from(regions, 0, all_frames(regions)[i]));
    }
}

/// The frames of the regions from index `k` on are all different, and each
/// lies in a usable region of index `k` or later.
proof fn lemma_frames_from_unique(regions: Seq<MemoryRegion>, k: int)
    requires
        regions_valid(regions),
        0 <= k <= regions.len(),
    ensures
        frames_from(regions, k).no_duplicates(),
        forall|i: int|
            0 <= i < frames_from(regions, k).len() ==> in_usable_region_from(
                regions,
                k,
                #[trigger] frames_from(regions, k)[i],
            ),
    decreases regions.len() - k,
{
    lemma_frames_from_inside(regions, k);
    if k < regions.len() {
        lemma_frames_from_unique(regions, k + 1);
        let r = regions[k];
        let head = region_frames(r);
        let tail = frames_from(regions, k + 1);
        let all = frames_from(regions, k);
        assert(all == head + tail);
        assert forall|i: int| 0 <= i < head.len() implies head[i] == first_boundary(r.start_addr as int)
            + FRAME_SIZE * i && r.start_addr <= head[i] && head[i] + FRAME_SIZE <= r.end_addr by {
            lemma_range_frame_at(r.start_addr as int, r.end_addr as int, i);
        }
        assert forall|i: int| 0 <= i < all.len() implies in_usable_region_from(regions, k, #[trigger] all[i]) by {
            if i < head.len() {
                assert(regions[k].start_addr <= all[i] && all[i] + FRAME_SIZE <= regions[k].end_addr);
            } else {
                assert(all[i] == tail[i - head.len()]);
                assert(in_usable_region_from(regions, k + 1, tail[i - head.len()]));
            }
        }
        assert forall|i: int, j: int| 0 <= i < j < all.len() implies all[i] != all[j] by {
            if j < head.len() {
            } else if i < head.len() {
                let f = tail[j - head.len()];
                assert(in_usable_region_from(regions, k + 1, f));
                let m = choose|m: int|
                    k + 1 <= m < regions.len() && (#[trigger] regions[m]).region_type
                        == MemoryRegionType::Usable && regions[m].start_addr <= f && f + FRAME_SIZE
                        <= regions[m].end_addr;
                assert(regions[k].end_addr <= regions[m].start_addr || regions[m].end_addr
                    <= regions[k].start_addr);
            } else {
                assert(all[i] == tail[i - head.len()]);
                assert(all[j] == tail[j - head.len()]);
            }
        }
    }
}

/// Frame allocation never repeats itself: over a memory map whose usable
/// regions do not overlap, the whole sequence of frames that the allocator
/// hands out holds no frame twice (and, as for any map, each frame lies
/// wholly in a region tagged usable).
pub proof fn lemma_allocation_never_repeats(regions: Seq<MemoryRegion>)
    requires
        regions_valid(regions),
    ensures
        all_frames(regions).no_duplicates(),
        forall|i: int|
            0 <= i < all_frames(regions).len() ==> in_usable_region(
                regions,
                #[trigger] all_frames(regions)[i],
            ),
{
    lemma_frames_from_unique(regions, 0);
    assert forall|i: int| 0 <= i < all_frames(regions).len() implies in_usable_region(
        regions,
        #[trigger] all_frames(regions)[i],
    ) by {
        assert(in_usable_region_from(regions, 0, all_frames(regions)[i]));
    }
}

/// Dropping the first frame of a range leaves the range that starts one
/// frame after it.
proof fn lemma_range_frames_step(a: int, e: int)
    requires
        0 <= a,
        e <= u64::MAX,
        first_boundary(a) + FRAME_SIZE <= e,
    ensures
        range_frames(a, e).len() > 0,
        range_frames(a, e)[0] == first_boundary(a),
        range_frames(a, e).drop_first() == range_frames(first_boundary(a) + FRAME_SIZE, e),
{
    let b = first_boundary(a);
    let s = range_frames(a, e);
    let t = range_frames(b + FRAME_SIZE, e);
    assert(b % 4096 == 0) by {
        if a % 4096 != 0 {
            assert((a - a % 4096 + 4096) % 4096 == 0) by (nonlinear_arith);
        }
    }
    assert((b + 4096) % 4096 == 0) by (nonlinear_arith)
        requires
            b % 4096 == 0,
    ;
    assert(first_boundary(b + FRAME_SIZE) == b + FRAME_SIZE);
    assert((e - b) / 4096 - 1 == (e - (b + 4096)) / 4096);
    assert(s[0] == b + FRAME_SIZE * 0);
    assert forall|i: int| 0 <= i < t.len() implies s.drop_first()[i] == t[i] by {
        assert(FRAME_SIZE * (i + 1) == FRAME_SIZE + FRAME_SIZE * i);
    }
    assert(s.drop_first() =~= t);
}

} // verus!
