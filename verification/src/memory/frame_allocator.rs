//! Physical frame allocators over a boot-supplied memory map.
//!
//! The memory map is a sorted list of disjoint regions, each tagged usable
//! or reserved; frames are the 4096-byte units of the usable regions.

use vstd::prelude::*;

verus! {

/// Size in bytes of one physical frame.
pub const FRAME_SIZE: u64 = 4096;

/// Tag of one region of the boot memory map.
#[derive(Clone, Copy, Debug, PartialEq, Eq, Structural)]
pub enum MemoryRegionType {
    /// Free for the kernel to allocate from.
    Usable,
    /// Owned by firmware, the boot stage, or device memory; never allocated.
    Reserved,
}

/// One region of the boot memory map: the physical addresses
/// `start <= a < end`.
#[derive(Clone, Copy, Debug, PartialEq, Eq, Structural)]
pub struct MemoryRegion {
    pub start: u64,
    pub end: u64,
    pub region_type: MemoryRegionType,
}

pub open spec fn region_wf(r: MemoryRegion) -> bool {
    &&& r.start <= r.end
    &&& r.start % (FRAME_SIZE as u64) == 0
    &&& r.end % (FRAME_SIZE as u64) == 0
}

/// A valid boot memory map: frame-aligned regions, sorted and disjoint.
pub open spec fn memory_map_wf(map: Seq<MemoryRegion>) -> bool {
    &&& forall|i: int| 0 <= i < map.len() ==> region_wf(#[trigger] map[i])
    &&& forall|i: int, j: int| 0 <= i < j < map.len() ==> map[i].end <= map[j].start
}

/// The frames of one region, in address order; empty unless usable.
pub open spec fn region_frames(r: MemoryRegion) -> Seq<u64> {
    if r.region_type == MemoryRegionType::Usable {
        Seq::new(((r.end - r.start) / (FRAME_SIZE as int)) as nat, |i: int| (r.start + 4096 * i) as u64)
    } else {
        Seq::empty()
    }
}

/// All usable frames of the map, flattened in map order.
pub open spec fn usable_frames(map: Seq<MemoryRegion>) -> Seq<u64>
    decreases map.len(),
{
    if map.len() == 0 {
        Seq::empty()
    } else {
        region_frames(map[0]) + usable_frames(map.drop_first())
    }
}

/// Sum of the byte lengths of all regions.
pub open spec fn total_region_bytes(map: Seq<MemoryRegion>) -> int
    decreases map.len(),
{
    if map.len() == 0 {
        0
    } else {
        (map[0].end - map[0].start) + total_region_bytes(map.drop_first())
    }
}

/// Sum of the byte lengths of the usable regions.
pub open spec fn usable_region_bytes(map: Seq<MemoryRegion>) -> int
    decreases map.len(),
{
    if map.len() == 0 {
        0
    } else {
        (if map[0].region_type == MemoryRegionType::Usable {
            map[0].end - map[0].start
        } else {
            0
        }) + usable_region_bytes(map.drop_first())
    }
}

/// A source of 4096-byte physical frames, identified by base address.
/// A frame is issued at most once: every successful allocation returns
/// a frame the allocator has never handed out before.
pub trait FrameAllocator: Sized {
    /// The allocator's internal consistency condition.
    spec fn inv(&self) -> bool;

    /// The frame the next allocation returns, if any.
    spec fn peek(&self) -> Option<u64>;

    /// How one allocation changes the allocator.
    spec fn advanced(&self, prev: &Self) -> bool;

    /// Whether the allocator has already handed out frame `f`.
    spec fn spec_issued(&self, f: u64) -> bool;

    /// How many further allocations are certain to succeed.
    spec fn frames_left(&self) -> nat;

    fn allocate_frame(&mut self) -> (r: Option<u64>)
        requires
            old(self).inv(),
        ensures
            final(self).inv(),
            r == old(self).peek(),
            final(self).advanced(old(self)),
            r matches Some(f) ==> f % 4096 == 0,
            r matches Some(f) ==> !old(self).spec_issued(f) && final(self).spec_issued(f),
            forall|f: u64| old(self).spec_issued(f) ==> final(self).spec_issued(f),
            r is None ==> final(self).peek() is None,
            old(self).frames_left() > 0 ==> r is Some,
            final(self).frames_left() >= old(self).frames_left() - 1,
    ;
}

/// The tail of a well-formed map is well-formed.
proof fn lemma_wf_drop_first(map: Seq<MemoryRegion>)
    requires
        memory_map_wf(map),
        map.len() > 0,
    ensures
        memory_map_wf(map.drop_first()),
{
    let rest = map.drop_first();
    assert forall|i: int| 0 <= i < rest.len() implies region_wf(#[trigger] rest[i]) by {
        assert(rest[i] == map[i + 1]);
    }
    assert forall|i: int, j: int| 0 <= i < j < rest.len() implies rest[i].end <= rest[j].start by {
        assert(rest[i] == map[i + 1]);
        assert(rest[j] == map[j + 1]);
    }
}

/// Every usable frame is 4096-byte aligned, lies wholly inside a usable
/// region of the map, and no frame appears twice.
pub proof fn lemma_usable_frames_sound(map: Seq<MemoryRegion>)
    requires
        memory_map_wf(map),
    ensures
        forall|k: int|
            0 <= k < usable_frames(map).len() ==> (#[trigger] usable_frames(map)[k]) % 4096 == 0,
        forall|k: int|
            0 <= k < usable_frames(map).len() ==> exists|i: int|
                0 <= i < map.len() && map[i].region_type == MemoryRegionType::Usable
                    && map[i].start <= #[trigger] usable_frames(map)[k]
                    && usable_frames(map)[k] + 4096 <= map[i].end,
        forall|k: int, l: int|
            0 <= k < l < usable_frames(map).len() ==> usable_frames(map)[k]
                != usable_frames(map)[l],
    decreases map.len(),
{
    if map.len() > 0 {
        let r0 = map[0];
        let head = region_frames(r0);
        let rest = map.drop_first();
        let tail = usable_frames(rest);
        lemma_wf_drop_first(map);
        lemma_usable_frames_sound(rest);
        assert(usable_frames(map) == head + tail);
        assert forall|k: int| 0 <= k < head.len() implies (#[trigger] head[k]) % 4096 == 0
            && r0.start <= head[k] && head[k] + 4096 <= r0.end by {
            let d = (r0.end - r0.start) / 4096;
            vstd::arithmetic::div_mod::lemma_fundamental_div_mod((r0.end - r0.start) as int, 4096);
            assert((r0.end - r0.start) % 4096 == 0) by (nonlinear_arith)
                requires r0.start % 4096 == 0, r0.end % 4096 == 0, r0.start <= r0.end;
            assert(r0.end - r0.start == 4096 * d);
            assert(4096 * k + 4096 <= 4096 * d) by (nonlinear_arith)
                requires k < d;
            assert(head[k] == r0.start + 4096 * k);
            assert((r0.start + 4096 * k) % 4096 == 0) by (nonlinear_arith)
                requires r0.start % 4096 == 0, k >= 0;
        }
        // every frame of the tail lies in some later region, above r0.end
        assert forall|k: int| 0 <= k < tail.len() implies r0.end <= #[trigger] tail[k] by {
            let i = choose|i: int|
                0 <= i < rest.len() && rest[i].region_type == MemoryRegionType::Usable
                    && rest[i].start <= tail[k] && tail[k] + 4096 <= rest[i].end;
            assert(rest[i] == map[i + 1]);
            assert(map[0].end <= map[i + 1].start);
        }
        assert forall|k: int|
            0 <= k < usable_frames(map).len() implies exists|i: int|
                0 <= i < map.len() && map[i].region_type == MemoryRegionType::Usable
                    && map[i].start <= #[trigger] usable_frames(map)[k]
                    && usable_frames(map)[k] + 4096 <= map[i].end by {
            if k < head.len() {
                assert(usable_frames(map)[k] == head[k]);
                assert(map[0].start <= usable_frames(map)[k]
                    && usable_frames(map)[k] + 4096 <= map[0].end
                    && map[0].region_type == MemoryRegionType::Usable);
            } else {
                let i = choose|i: int|
                    0 <= i < rest.len() && rest[i].region_type == MemoryRegionType::Usable
                        && rest[i].start <= tail[k - head.len()]
                        && tail[k - head.len()] + 4096 <= rest[i].end;
                assert(usable_frames(map)[k] == tail[k - head.len()]);
                assert(map[i + 1].start <= usable_frames(map)[k]
                    && usable_frames(map)[k] + 4096 <= map[i + 1].end
                    && map[i + 1].region_type == MemoryRegionType::Usable);
            }
        }
        assert forall|k: int, l: int|
            0 <= k < l < usable_frames(map).len() implies usable_frames(map)[k]
                != usable_frames(map)[l] by {
            if l < head.len() {
                assert(head[k] == r0.start + 4096 * k);
                assert(head[l] == r0.start + 4096 * l);
                assert(4096 * k < 4096 * l) by (nonlinear_arith)
                    requires k < l;
            } else if k >= head.len() {
                assert(usable_frames(map)[k] == tail[k - head.len()]);
                assert(usable_frames(map)[l] == tail[l - head.len()]);
            } else {
                // k in the head region, l in a later region
                assert(usable_frames(map)[k] == head[k]);
                assert(usable_frames(map)[l] == tail[l - head.len()]);
                assert(head[k] + 4096 <= r0.end);
                assert(r0.end <= tail[l - head.len()]);
            }
        }
    }
}

/// With sorted, disjoint regions the total byte count is bounded by the
/// span from the first region's start to the last region's end.
proof fn lemma_total_bytes_bound(map: Seq<MemoryRegion>)
    requires
        memory_map_wf(map),
        map.len() > 0,
    ensures
        total_region_bytes(map) <= map.last().end - map[0].start,
    decreases map.len(),
{
    let rest = map.drop_first();
    if rest.len() == 0 {
        assert(total_region_bytes(rest) == 0);
        assert(map.last() == map[0]);
    } else {
        lemma_wf_drop_first(map);
        lemma_total_bytes_bound(rest);
        assert(rest.last() == map.last());
        assert(rest[0] == map[1]);
        assert(map[0].end <= map[1].start);
        assert(region_wf(map[0]));
        assert(total_region_bytes(map) == (map[0].end - map[0].start) + total_region_bytes(rest));
    }
}

proof fn lemma_usable_le_total(map: Seq<MemoryRegion>)
    requires
        forall|i: int| 0 <= i < map.len() ==> region_wf(#[trigger] map[i]),
    ensures
        0 <= usable_region_bytes(map) <= total_region_bytes(map),
    decreases map.len(),
{
    if map.len() > 0 {
        let rest = map.drop_first();
        assert forall|i: int| 0 <= i < rest.len() implies region_wf(#[trigger] rest[i]) by {
            assert(rest[i] == map[i + 1]);
        }
        lemma_usable_le_total(rest);
    }
}

/// Whether region `k` ends at or before its successor starts.
pub open spec fn adjacent_ok(map: Seq<MemoryRegion>, k: int) -> bool {
    map[k].end <= map[k + 1].start
}

/// A sorted chain of frame-aligned regions is pairwise disjoint.
proof fn lemma_adjacent_sorted(map: Seq<MemoryRegion>, i: int, j: int)
    requires
        forall|k: int| 0 <= k < map.len() ==> region_wf(#[trigger] map[k]),
        forall|k: int| 0 <= k && k + 1 < map.len() ==> #[trigger] adjacent_ok(map, k),
        0 <= i < j < map.len(),
    ensures
        map[i].end <= map[j].start,
    decreases j - i,
{
    assert(adjacent_ok(map, j - 1));
    if j > i + 1 {
        lemma_adjacent_sorted(map, i, j - 1);
        assert(region_wf(map[j - 1]));
    }
}

/// There are no more usable frames than usable bytes.
proof fn lemma_frames_le_usable_bytes(map: Seq<MemoryRegion>)
    requires
        forall|i: int| 0 <= i < map.len() ==> region_wf(#[trigger] map[i]),
    ensures
        usable_frames(map).len() <= usable_region_bytes(map),
    decreases map.len(),
{
    if map.len() > 0 {
        let rest = map.drop_first();
        assert forall|i: int| 0 <= i < rest.len() implies region_wf(#[trigger] rest[i]) by {
            assert(rest[i] == map[i + 1]);
        }
        lemma_frames_le_usable_bytes(rest);
        assert(region_wf(map[0]));
        if map[0].region_type == MemoryRegionType::Usable {
            vstd::arithmetic::div_mod::lemma_fundamental_div_mod(
                (map[0].end - map[0].start) as int, 4096);
        }
    }
}

/// Decide, executably, whether a boot memory map is one the library's
/// initialization accepts: frame-aligned, sorted, disjoint regions with
/// an addressable number of usable frames.
#[verifier::spinoff_prover]
#[verifier::rlimit(100)]
pub fn check_memory_map(map: &Vec<MemoryRegion>) -> (r: bool)
    ensures
        r == (memory_map_wf(map@) && usable_frames(map@).len() <= usize::MAX),
{
    let n = map.len();
    let mut i: usize = 0;
    while i < n
        invariant
            n == map@.len(),
            0 <= i <= n,
            forall|j: int| 0 <= j < i ==> region_wf(#[trigger] map@[j]),
            forall|j: int|
                0 <= j && j + 1 < n && j < i ==> #[trigger] adjacent_ok(map@, j),
        decreases n - i,
    {
        let reg = map[i];
        if !(reg.start <= reg.end && reg.start % 4096 == 0 && reg.end % 4096 == 0) {
            proof {
                assert(!region_wf(map@[i as int]));
            }
            return false;
        }
        if i + 1 < n && reg.end > map[i + 1].start {
            return false;
        }
        proof {
            if i + 1 < n {
                assert(adjacent_ok(map@, i as int));
            }
        }
        i = i + 1;
    }
    proof {
        assert forall|k: int, l: int| 0 <= k < l < map@.len() implies map@[k].end
            <= map@[l].start by {
            lemma_adjacent_sorted(map@, k, l);
        }
        assert(memory_map_wf(map@));
        lemma_frames_le_usable_bytes(map@);
        lemma_usable_le_total(map@);
        if map@.len() > 0 {
            lemma_total_bytes_bound(map@);
        }
        assert(map@.skip(0) =~= map@);
    }
    // the usable frame count fits in a machine word
    let ghost mapg = map@;
    let mut count: u64 = 0;
    let mut idx: usize = 0;
    while idx < n
        invariant
            n == mapg.len(),
            mapg == map@,
            memory_map_wf(mapg),
            0 <= idx <= n,
            usable_frames(mapg).len() <= usable_region_bytes(mapg) <= u64::MAX,
            usable_frames(mapg.skip(idx as int)).len() <= usable_frames(mapg).len(),
            count == usable_frames(mapg).len() - usable_frames(mapg.skip(idx as int)).len(),
        decreases n - idx,
    {
        let reg = map[idx];
        proof {
            assert(mapg.skip(idx as int)[0] == mapg[idx as int]);
            assert(mapg.skip(idx as int).drop_first() =~= mapg.skip(idx as int + 1));
            assert(usable_frames(mapg.skip(idx as int)) == region_frames(mapg[idx as int])
                + usable_frames(mapg.skip(idx as int + 1)));
        }
        if matches!(reg.region_type, MemoryRegionType::Usable) {
            proof {
                assert(region_frames(reg).len() == (reg.end - reg.start) / 4096);
            }
            count = count + (reg.end - reg.start) / FRAME_SIZE;
        }
        idx = idx + 1;
    }
    proof {
        assert(mapg.skip(n as int) =~= Seq::<MemoryRegion>::empty());
    }
    count <= usize::MAX as u64
}

/// Hands out the usable frames of the boot memory map in order, re-deriving
/// the n-th usable frame from a single allocation counter.
pub struct BootInfoFrameAllocator {
    pub memory_map: Vec<MemoryRegion>,
    pub next: usize,
}

impl BootInfoFrameAllocator {
    /// The condition under which the boot memory map may be trusted: regions
    /// frame-aligned, sorted and disjoint, with an addressable frame count.
    pub open spec fn wf(&self) -> bool {
        &&& memory_map_wf(self.memory_map@)
        &&& usable_frames(self.memory_map@).len() <= usize::MAX
    }

    /// Create an allocator over a boot memory map. The map must be valid:
    /// all frames of regions marked usable are really unused.
    pub fn init(memory_map: Vec<MemoryRegion>) -> (r: Self)
        requires
            memory_map_wf(memory_map@),
            usable_frames(memory_map@).len() <= usize::MAX,
        ensures
            r.wf(),
            r.memory_map == memory_map,
            r.next == 0,
    {
        BootInfoFrameAllocator { memory_map, next: 0 }
    }

    /// Number of usable frames in the whole map, regardless of how many
    /// have been handed out.
    pub fn available_frames(&self) -> (r: usize)
        requires
            self.wf(),
        ensures
            r == usable_frames(self.memory_map@).len(),
    {
        let ghost map = self.memory_map@;
        proof {
            assert(map.skip(0) =~= map);
        }
        let mut count: usize = 0;
        let mut idx: usize = 0;
        while idx < self.memory_map.len()
            invariant
                self.wf(),
                map == self.memory_map@,
                0 <= idx <= map.len(),
                usable_frames(map.skip(idx as int)).len() <= usable_frames(map).len(),
                count == usable_frames(map).len() - usable_frames(map.skip(idx as int)).len(),
            decreases map.len() - idx,
        {
            let r = self.memory_map[idx];
            proof {
                assert(map.skip(idx as int)[0] == map[idx as int]);
                assert(map.skip(idx as int).drop_first() =~= map.skip(idx as int + 1));
                assert(usable_frames(map.skip(idx as int)) == region_frames(map[idx as int])
                    + usable_frames(map.skip(idx as int + 1)));
            }
            if r.region_type == MemoryRegionType::Usable {
                let region_count = ((r.end - r.start) / FRAME_SIZE) as usize;
                proof {
                    assert(region_frames(r).len() == (r.end - r.start) / 4096);
                }
                count = count + region_count;
            }
            idx = idx + 1;
        }
        proof {
            assert(map.skip(map.len() as int) =~= Seq::<MemoryRegion>::empty());
        }
        count
    }

    /// Total byte size of the memory map, usable or not.
    pub fn total_memory_size(&self) -> (r: u64)
        requires
            self.wf(),
        ensures
            r == total_region_bytes(self.memory_map@),
    {
        let ghost map = self.memory_map@;
        proof {
            if map.len() > 0 {
                lemma_total_bytes_bound(map);
            }
            lemma_suffix_bytes_nonneg(map, 0);
            assert(map.skip(0) =~= map);
        }
        let mut total: u64 = 0;
        let mut idx: usize = 0;
        while idx < self.memory_map.len()
            invariant
                self.wf(),
                map == self.memory_map@,
                0 <= idx <= map.len(),
                total == total_region_bytes(map) - total_region_bytes(map.skip(idx as int)),
                total_region_bytes(map) <= u64::MAX,
            decreases map.len() - idx,
        {
            let r = self.memory_map[idx];
            proof {
                assert(map.skip(idx as int)[0] == map[idx as int]);
                assert(map.skip(idx as int).drop_first() =~= map.skip(idx as int + 1));
                lemma_suffix_bytes_nonneg(map, idx as int + 1);
            }
            total = total + (r.end - r.start);
            idx = idx + 1;
        }
        proof {
            assert(map.skip(map.len() as int) =~= Seq::<MemoryRegion>::empty());
        }
        total
    }

    /// Byte size of the usable part of the memory map.
    pub fn usable_memory_size(&self) -> (r: u64)
        requires
            self.wf(),
        ensures
            r == usable_region_bytes(self.memory_map@),
    {
        let ghost map = self.memory_map@;
        proof {
            if map.len() > 0 {
                lemma_total_bytes_bound(map);
            }
            lemma_usable_le_total(map);
            lemma_suffix_usable_bytes_bounds(map, 0);
            assert(map.skip(0) =~= map);
        }
        let mut total: u64 = 0;
        let mut idx: usize = 0;
        while idx < self.memory_map.len()
            invariant
                self.wf(),
                map == self.memory_map@,
                0 <= idx <= map.len(),
                total == usable_region_bytes(map) - usable_region_bytes(map.skip(idx as int)),
                usable_region_bytes(map) <= u64::MAX,
            decreases map.len() - idx,
        {
            let r = self.memory_map[idx];
            proof {
                assert(map.skip(idx as int)[0] == map[idx as int]);
                assert(map.skip(idx as int).drop_first() =~= map.skip(idx as int + 1));
                lemma_suffix_usable_bytes_bounds(map, idx as int);
                lemma_suffix_usable_bytes_bounds(map, idx as int + 1);
            }
            if r.region_type == MemoryRegionType::Usable {
                total = total + (r.end - r.start);
            }
            idx = idx + 1;
        }
        proof {
            assert(map.skip(map.len() as int) =~= Seq::<MemoryRegion>::empty());
        }
        total
    }
}

proof fn lemma_suffix_bytes_nonneg(map: Seq<MemoryRegion>, k: int)
    requires
        forall|i: int| 0 <= i < map.len() ==> region_wf(#[trigger] map[i]),
        0 <= k <= map.len(),
    ensures
        0 <= total_region_bytes(map.skip(k)),
    decreases map.len() - k,
{
    if k < map.len() {
        assert(map.skip(k)[0] == map[k]);
        assert(map.skip(k).drop_first() =~= map.skip(k + 1));
        lemma_suffix_bytes_nonneg(map, k + 1);
    }
}

proof fn lemma_suffix_usable_bytes_bounds(map: Seq<MemoryRegion>, k: int)
    requires
        forall|i: int| 0 <= i < map.len() ==> region_wf(#[trigger] map[i]),
        0 <= k <= map.len(),
    ensures
        0 <= usable_region_bytes(map.skip(k)),
    decreases map.len() - k,
{
    if k < map.len() {
        assert(map.skip(k)[0] == map[k]);
        assert(map.skip(k).drop_first() =~= map.skip(k + 1));
        lemma_suffix_usable_bytes_bounds(map, k + 1);
    }
}

impl FrameAllocator for BootInfoFrameAllocator {
    open spec fn inv(&self) -> bool {
        self.wf()
    }

    open spec fn peek(&self) -> Option<u64> {
        if self.next < usable_frames(self.memory_map@).len() {
            Some(usable_frames(self.memory_map@)[self.next as int])
        } else {
            None
        }
    }

    open spec fn advanced(&self, prev: &Self) -> bool {
        &&& self.memory_map == prev.memory_map
        &&& self.next == if prev.next < usize::MAX {
            prev.next + 1
        } else {
            prev.next as int
        }
    }

    open spec fn spec_issued(&self, f: u64) -> bool {
        exists|i: int|
            0 <= i < self.next && i < usable_frames(self.memory_map@).len()
                && usable_frames(self.memory_map@)[i] == f
    }

    open spec fn frames_left(&self) -> nat {
        if self.next < usable_frames(self.memory_map@).len() {
            (usable_frames(self.memory_map@).len() - self.next) as nat
        } else {
            0
        }
    }

    fn allocate_frame(&mut self) -> (r: Option<u64>) {
        let ghost map = self.memory_map@;
        let ghost frames = usable_frames(map);
        proof {
            assert(map.skip(0) =~= map);
            assert(frames.take(0) =~= Seq::<u64>::empty());
            assert(frames =~= frames.take(0) + frames);
        }
        let mut remaining = self.next;
        let mut idx: usize = 0;
        while idx < self.memory_map.len()
            invariant
                self.wf(),
                self == old(self),
                map == self.memory_map@,
                frames == usable_frames(map),
                0 <= idx <= map.len(),
                remaining <= self.next,
                self.next - remaining == frames.len() - usable_frames(map.skip(idx as int)).len(),
                frames =~= frames.take(frames.len() - usable_frames(map.skip(idx as int)).len())
                    + usable_frames(map.skip(idx as int)),
            decreases map.len() - idx,
        {
            let r = self.memory_map[idx];
            proof {
                assert(map.skip(idx as int)[0] == map[idx as int]);
                assert(map.skip(idx as int).drop_first() =~= map.skip(idx as int + 1));
                assert(usable_frames(map.skip(idx as int)) == region_frames(map[idx as int])
                    + usable_frames(map.skip(idx as int + 1)));
            }
            if r.region_type == MemoryRegionType::Usable {
                let ghost done = frames.len() - usable_frames(map.skip(idx as int)).len();
                let region_count = ((r.end - r.start) / FRAME_SIZE) as usize;
                proof {
                    assert(region_frames(r).len() == (r.end - r.start) / 4096);
                }
                if remaining < region_count {
                    proof {
                        vstd::arithmetic::div_mod::lemma_fundamental_div_mod(
                            (r.end - r.start) as int, 4096);
                        assert((r.end - r.start) % 4096 == 0) by (nonlinear_arith)
                            requires r.start % 4096 == 0, r.end % 4096 == 0, r.start <= r.end;
                        assert(4096 * remaining + 4096 <= 4096 * ((r.end - r.start) / 4096))
                            by (nonlinear_arith)
                            requires remaining < (r.end - r.start) / 4096;
                        assert(region_frames(r)[remaining as int] == r.start + 4096 * remaining);
                        assert(frames[self.next as int] == usable_frames(
                            map.skip(idx as int))[remaining as int]);
                        assert((r.start + 4096 * remaining) % 4096 == 0) by (nonlinear_arith)
                            requires r.start % 4096 == 0, remaining >= 0;
                        assert(self.next < frames.len());
                    }
                    let frame = r.start + FRAME_SIZE * (remaining as u64);
                    let ghost prev = *self;
                    self.next = self.next + 1;
                    proof {
                        // the frame just handed out never appeared before:
                        // usable frames are pairwise distinct
                        lemma_usable_frames_sound(map);
                        assert(!prev.spec_issued(frame));
                        assert(self.spec_issued(frame));
                        assert forall|f: u64| prev.spec_issued(f) implies self.spec_issued(
                            f) by {
                            let i = choose|i: int|
                                0 <= i < prev.next && i < frames.len() && frames[i] == f;
                            assert(0 <= i < self.next && i < frames.len() && frames[i] == f);
                        }
                    }
                    return Some(frame);
                }
                remaining = remaining - region_count;
            }
            idx = idx + 1;
        }
        proof {
            assert(map.skip(map.len() as int) =~= Seq::<MemoryRegion>::empty());
            assert(self.next >= frames.len());
        }
        // the counter keeps advancing past the end, as far as the
        // machine word allows
        let ghost prev = *self;
        if self.next < usize::MAX {
            self.next = self.next + 1;
        }
        proof {
            assert forall|f: u64| prev.spec_issued(f) implies self.spec_issued(f) by {
                let i = choose|i: int|
                    0 <= i < prev.next && i < frames.len() && frames[i] == f;
                assert(0 <= i < self.next && i < frames.len() && frames[i] == f);
            }
        }
        None
    }
}

/// Whether bit `k` of byte `b` is set.
pub open spec fn bit_of(b: u8, k: u8) -> bool {
    (b >> k) & 1 == 1
}

/// Whether frame `rel` (relative to the allocator's first frame) is
/// marked allocated in the bitmap.
pub open spec fn frame_marked(bm: Seq<u8>, rel: int) -> bool {
    bit_of(bm[rel / 8], (rel % 8) as u8)
}

/// The first unmarked relative frame number at or after `rel`.
pub open spec fn first_free_from(bm: Seq<u8>, count: int, rel: int) -> Option<usize>
    decreases count - rel,
{
    if rel < 0 || rel >= count {
        None
    } else if !frame_marked(bm, rel) {
        Some(rel as usize)
    } else {
        first_free_from(bm, count, rel + 1)
    }
}

/// How many tracked frames at or after `rel` are unmarked.
pub open spec fn free_count_from(bm: Seq<u8>, count: int, rel: int) -> nat
    decreases count - rel,
{
    if rel < 0 || rel >= count {
        0
    } else {
        (if frame_marked(bm, rel) {
            0nat
        } else {
            1nat
        }) + free_count_from(bm, count, rel + 1)
    }
}

/// No frame is free exactly when the free count is zero.
proof fn lemma_free_count_first_free(bm: Seq<u8>, count: int, rel0: int)
    ensures
        (first_free_from(bm, count, rel0) is None) == (free_count_from(bm, count, rel0)
            == 0),
    decreases count - rel0,
{
    if !(rel0 < 0 || rel0 >= count) {
        lemma_free_count_first_free(bm, count, rel0 + 1);
    }
}

/// Marking one free frame lowers the free count by exactly one.
proof fn lemma_free_count_mark(bm1: Seq<u8>, bm2: Seq<u8>, count: int, changed: int,
    rel0: int)
    requires
        0 <= changed < count,
        !frame_marked(bm1, changed),
        frame_marked(bm2, changed),
        forall|j: int| 0 <= j < count && j != changed ==> frame_marked(bm2, j)
            == frame_marked(bm1, j),
        0 <= rel0,
    ensures
        free_count_from(bm2, count, rel0) == free_count_from(bm1, count, rel0) - (
        if rel0 <= changed {
            1int
        } else {
            0int
        }),
    decreases count - rel0,
{
    if rel0 < count {
        lemma_free_count_mark(bm1, bm2, count, changed, rel0 + 1);
    }
}

proof fn lemma_first_free_props(bm: Seq<u8>, count: int, rel0: int)
    requires
        0 <= rel0,
        count <= usize::MAX,
    ensures
        match first_free_from(bm, count, rel0) {
            Some(rel) => rel0 <= rel < count && !frame_marked(bm, rel as int) && forall|m: int|
                rel0 <= m < rel ==> frame_marked(bm, m),
            None => forall|m: int| rel0 <= m < count ==> frame_marked(bm, m),
        },
    decreases count - rel0,
{
    if rel0 < count && frame_marked(bm, rel0) {
        lemma_first_free_props(bm, count, rel0 + 1);
    }
}

/// Tracks allocated frames one bit each, over the frame numbers
/// `start_frame_number <= n < start_frame_number + frames_count`.
pub struct BitmapFrameAllocator {
    pub bitmap: Vec<u8>,
    pub start_frame_number: usize,
    pub frames_count: usize,
}

impl BitmapFrameAllocator {
    pub open spec fn wf(&self) -> bool {
        &&& self.bitmap@.len() >= (self.frames_count + 7) / 8
        &&& self.start_frame_number + self.frames_count <= usize::MAX
        &&& (self.start_frame_number + self.frames_count) * 4096 <= u64::MAX
    }

    /// The first free frame of the tracked range, as an absolute frame
    /// number, if any frame is still free.
    pub open spec fn spec_first_free(&self) -> Option<usize> {
        match first_free_from(self.bitmap@, self.frames_count as int, 0) {
            Some(rel) => Some((self.start_frame_number + rel) as usize),
            None => None,
        }
    }

    /// Create an allocator whose bitmap covers all tracked frames. Frames
    /// whose bits are already set are treated as allocated.
    pub fn new(bitmap: Vec<u8>, start_frame_number: usize, frames_count: usize) -> (r: Self)
        requires
            bitmap@.len() >= (frames_count + 7) / 8,
            start_frame_number + frames_count <= usize::MAX,
            (start_frame_number + frames_count) * 4096 <= u64::MAX,
        ensures
            r.wf(),
            r.bitmap == bitmap,
            r.start_frame_number == start_frame_number,
            r.frames_count == frames_count,
    {
        BitmapFrameAllocator { bitmap, start_frame_number, frames_count }
    }

    /// Set the bit of `frame_number`; out-of-range numbers are ignored.
    pub fn mark_frame_allocated(&mut self, frame_number: usize)
        requires
            old(self).wf(),
        ensures
            final(self).wf(),
            final(self).start_frame_number == old(self).start_frame_number,
            final(self).frames_count == old(self).frames_count,
            final(self).bitmap@.len() == old(self).bitmap@.len(),
            !(old(self).start_frame_number <= frame_number
                < old(self).start_frame_number + old(self).frames_count) ==> *final(self)
                == *old(self),
            old(self).start_frame_number <= frame_number < old(self).start_frame_number
                + old(self).frames_count ==> {
                let rel = frame_number - old(self).start_frame_number;
                &&& frame_marked(final(self).bitmap@, rel)
                &&& forall|j: int|
                    0 <= j < old(self).frames_count && j != rel ==> frame_marked(
                        final(self).bitmap@, j) == frame_marked(old(self).bitmap@, j)
            },
    {
        if frame_number < self.start_frame_number {
            return;
        }
        let rel_frame = frame_number - self.start_frame_number;
        if rel_frame >= self.frames_count {
            return;
        }
        let byte_index = rel_frame / 8;
        let bit_index = rel_frame % 8;
        let b = self.bitmap[byte_index];
        self.bitmap[byte_index] = b | (1u8 << (bit_index as u8));
        proof {
            let rel = rel_frame as int;
            let k = (rel % 8) as u8;
            assert(((b | (1u8 << k)) >> k) & 1 == 1) by (bit_vector)
                requires k < 8;
            assert(frame_marked(self.bitmap@, rel));
            assert forall|j: int|
                0 <= j < self.frames_count && j != rel implies frame_marked(self.bitmap@, j)
                == frame_marked(old(self).bitmap@, j) by {
                vstd::arithmetic::div_mod::lemma_fundamental_div_mod(j, 8);
                vstd::arithmetic::div_mod::lemma_fundamental_div_mod(rel, 8);
                if j / 8 == byte_index {
                    let jb = (j % 8) as u8;
                    assert(((b | (1u8 << k)) >> jb) & 1 == (b >> jb) & 1) by (bit_vector)
                        requires k < 8, jb < 8, jb != k;
                } else {
                    assert(self.bitmap@[j / 8] == old(self).bitmap@[j / 8]);
                }
            }
        }
    }

    /// Clear the bit of `frame_number`; out-of-range numbers are ignored.
    pub fn mark_frame_free(&mut self, frame_number: usize)
        requires
            old(self).wf(),
        ensures
            final(self).wf(),
            final(self).start_frame_number == old(self).start_frame_number,
            final(self).frames_count == old(self).frames_count,
            final(self).bitmap@.len() == old(self).bitmap@.len(),
            !(old(self).start_frame_number <= frame_number
                < old(self).start_frame_number + old(self).frames_count) ==> *final(self)
                == *old(self),
            old(self).start_frame_number <= frame_number < old(self).start_frame_number
                + old(self).frames_count ==> {
                let rel = frame_number - old(self).start_frame_number;
                &&& !frame_marked(final(self).bitmap@, rel)
                &&& forall|j: int|
                    0 <= j < old(self).frames_count && j != rel ==> frame_marked(
                        final(self).bitmap@, j) == frame_marked(old(self).bitmap@, j)
            },
    {
        if frame_number < self.start_frame_number {
            return;
        }
        let rel_frame = frame_number - self.start_frame_number;
        if rel_frame >= self.frames_count {
            return;
        }
        let byte_index = rel_frame / 8;
        let bit_index = rel_frame % 8;
        let b = self.bitmap[byte_index];
        self.bitmap[byte_index] = b & !(1u8 << (bit_index as u8));
        proof {
            let rel = rel_frame as int;
            let k = (rel % 8) as u8;
            assert(((b & !(1u8 << k)) >> k) & 1 == 0) by (bit_vector)
                requires k < 8;
            assert(!frame_marked(self.bitmap@, rel));
            assert forall|j: int|
                0 <= j < self.frames_count && j != rel implies frame_marked(self.bitmap@, j)
                == frame_marked(old(self).bitmap@, j) by {
                vstd::arithmetic::div_mod::lemma_fundamental_div_mod(j, 8);
                vstd::arithmetic::div_mod::lemma_fundamental_div_mod(rel, 8);
                if j / 8 == byte_index {
                    let jb = (j % 8) as u8;
                    assert(((b & !(1u8 << k)) >> jb) & 1 == (b >> jb) & 1) by (bit_vector)
                        requires k < 8, jb < 8, jb != k;
                } else {
                    assert(self.bitmap@[j / 8] == old(self).bitmap@[j / 8]);
                }
            }
        }
    }

    /// Whether `frame_number` is tracked and currently marked allocated.
    pub fn is_frame_allocated(&self, frame_number: usize) -> (r: bool)
        requires
            self.wf(),
        ensures
            r == (self.start_frame_number <= frame_number < self.start_frame_number
                + self.frames_count && frame_marked(
                self.bitmap@, frame_number - self.start_frame_number)),
    {
        if frame_number < self.start_frame_number {
            return false;
        }
        let rel_frame = frame_number - self.start_frame_number;
        if rel_frame >= self.frames_count {
            return false;
        }
        let byte_index = rel_frame / 8;
        let bit_index = rel_frame % 8;
        (self.bitmap[byte_index] >> (bit_index as u8)) & 1 == 1
    }

    /// Absolute frame number of the first free tracked frame.
    pub fn find_free_frame(&self) -> (r: Option<usize>)
        requires
            self.wf(),
        ensures
            r == self.spec_first_free(),
    {
        let ghost bm = self.bitmap@;
        let ghost count = self.frames_count as int;
        let mut rel: usize = 0;
        while rel < self.frames_count
            invariant
                self.wf(),
                bm == self.bitmap@,
                count == self.frames_count as int,
                0 <= rel <= count,
                first_free_from(bm, count, 0) == first_free_from(bm, count, rel as int),
            decreases count - rel,
        {
            if !self.is_frame_allocated(self.start_frame_number + rel) {
                return Some(self.start_frame_number + rel);
            }
            rel = rel + 1;
        }
        None
    }
}

impl FrameAllocator for BitmapFrameAllocator {
    open spec fn inv(&self) -> bool {
        self.wf()
    }

    open spec fn peek(&self) -> Option<u64> {
        match self.spec_first_free() {
            Some(n) => Some((n * 4096) as u64),
            None => None,
        }
    }

    open spec fn advanced(&self, prev: &Self) -> bool {
        &&& self.start_frame_number == prev.start_frame_number
        &&& self.frames_count == prev.frames_count
        &&& self.bitmap@.len() == prev.bitmap@.len()
        &&& match prev.spec_first_free() {
            None => self == prev,
            Some(n) => {
                let rel = n - prev.start_frame_number;
                &&& frame_marked(self.bitmap@, rel)
                &&& forall|j: int|
                    0 <= j < prev.frames_count && j != rel ==> frame_marked(self.bitmap@, j)
                        == frame_marked(prev.bitmap@, j)
            },
        }
    }

    open spec fn spec_issued(&self, f: u64) -> bool {
        &&& f % 4096 == 0
        &&& self.start_frame_number <= f as int / 4096 < self.start_frame_number
            + self.frames_count
        &&& frame_marked(self.bitmap@, f as int / 4096 - self.start_frame_number)
    }

    open spec fn frames_left(&self) -> nat {
        free_count_from(self.bitmap@, self.frames_count as int, 0)
    }

    fn allocate_frame(&mut self) -> (r: Option<u64>) {
        proof {
            lemma_first_free_props(self.bitmap@, self.frames_count as int, 0);
            lemma_free_count_first_free(self.bitmap@, self.frames_count as int, 0);
        }
        let ghost prev = *self;
        if let Some(frame_number) = self.find_free_frame() {
            self.mark_frame_allocated(frame_number);
            proof {
                let bound = (self.start_frame_number + self.frames_count) as int;
                assert((frame_number as int) * 4096 <= bound * 4096) by (nonlinear_arith)
                    requires frame_number as int <= bound;
                assert(((frame_number as int) * 4096) % 4096 == 0) by (nonlinear_arith);
                assert((frame_number as int) * 4096 / 4096 == frame_number as int)
                    by (nonlinear_arith);
                let rel = frame_number - prev.start_frame_number;
                lemma_free_count_mark(prev.bitmap@, self.bitmap@,
                    self.frames_count as int, rel as int, 0);
                assert forall|f: u64| prev.spec_issued(f) implies self.spec_issued(f) by {
                    let relf = f as int / 4096 - prev.start_frame_number;
                    if relf != rel {
                        assert(frame_marked(self.bitmap@, relf) == frame_marked(
                            prev.bitmap@, relf));
                    }
                }
            }
            let frame_addr = (frame_number as u64) * 4096;
            Some(frame_addr)
        } else {
            None
        }
    }
}

/// A frame allocator that always reports exhaustion.
pub struct EmptyFrameAllocator;

impl FrameAllocator for EmptyFrameAllocator {
    open spec fn inv(&self) -> bool {
        true
    }

    open spec fn peek(&self) -> Option<u64> {
        None
    }

    open spec fn advanced(&self, prev: &Self) -> bool {
        true
    }

    open spec fn spec_issued(&self, f: u64) -> bool {
        false
    }

    open spec fn frames_left(&self) -> nat {
        0
    }

    fn allocate_frame(&mut self) -> (r: Option<u64>) {
        None
    }
}

} // verus!
