//! The kernel heap: fixed power-of-two size-class pools with an index-based
//! free list over each pool's arena, plus a first-fit fallback allocator
//! for requests that no size class fits.
//!
//! Heap addresses are modelled as `u64` virtual addresses.

use vstd::prelude::*;
use crate::memory::frame_allocator::FrameAllocator;
use crate::memory::paging::{PageTables, MapError, map_range, page_at, PAGE_PRESENT,
    PAGE_WRITABLE};

verus! {

/// Lowest virtual address of the kernel heap.
pub const HEAP_START: u64 = 0x4444_4444_0000;

/// Byte size of the kernel heap.
pub const HEAP_SIZE: u64 = 512 * 1024;

/// How many size classes the heap is split into.
pub const NUM_BLOCK_SIZES: usize = 10;

/// Block size of size class `i`: 8, 16, ..., 4096 bytes.
pub open spec fn spec_block_size(i: int) -> int {
    if i == 0 { 8 }
    else if i == 1 { 16 }
    else if i == 2 { 32 }
    else if i == 3 { 64 }
    else if i == 4 { 128 }
    else if i == 5 { 256 }
    else if i == 6 { 512 }
    else if i == 7 { 1024 }
    else if i == 8 { 2048 }
    else if i == 9 { 4096 }
    else { 0 }
}

/// Block size of size class `i`.
pub fn block_size(i: usize) -> (r: u64)
    requires
        i < NUM_BLOCK_SIZES,
    ensures
        r == spec_block_size(i as int),
{
    if i == 0 { 8 }
    else if i == 1 { 16 }
    else if i == 2 { 32 }
    else if i == 3 { 64 }
    else if i == 4 { 128 }
    else if i == 5 { 256 }
    else if i == 6 { 512 }
    else if i == 7 { 1024 }
    else if i == 8 { 2048 }
    else { 4096 }
}

/// The smallest size class whose block size is at least
/// `max(size, align)`, if one exists.
pub open spec fn find_slab_index_spec(size: int, align: int) -> Option<int> {
    let need = if size >= align { size } else { align };
    if need <= 8 { Some(0int) }
    else if need <= 16 { Some(1int) }
    else if need <= 32 { Some(2int) }
    else if need <= 64 { Some(3int) }
    else if need <= 128 { Some(4int) }
    else if need <= 256 { Some(5int) }
    else if need <= 512 { Some(6int) }
    else if need <= 1024 { Some(7int) }
    else if need <= 2048 { Some(8int) }
    else if need <= 4096 { Some(9int) }
    else { None }
}

/// Requesting exactly a class's block size routes to that class; one byte
/// more routes to the next class, and one byte past the largest class
/// routes to no class at all.
pub proof fn lemma_size_class_boundaries()
    ensures
        forall|i: int|
            0 <= i < NUM_BLOCK_SIZES ==> find_slab_index_spec(#[trigger] spec_block_size(i), 1)
                == Some(i),
        forall|i: int|
            0 <= i < NUM_BLOCK_SIZES - 1 ==> find_slab_index_spec(
                #[trigger] spec_block_size(i) + 1, 1) == Some(i + 1),
        find_slab_index_spec(spec_block_size(NUM_BLOCK_SIZES - 1 as int) + 1, 1)
            == None::<int>,
{
}

/// What one pool allocation returns: the top of the free list.
pub open spec fn slab_alloc_result(free: Seq<u64>) -> Option<u64> {
    if free.len() > 0 {
        Some(free.last())
    } else {
        None
    }
}

/// The free list after deallocating `ptr` into a pool.
pub open spec fn slab_after_dealloc(free: Seq<u64>, ptr: u64) -> Seq<u64> {
    free.push(ptr)
}

/// A block freed into a pool is the first block the pool hands out again.
pub proof fn lemma_slab_reuse(free: Seq<u64>, ptr: u64)
    ensures
        slab_alloc_result(slab_after_dealloc(free, ptr)) == Some(ptr),
{
}

/// Whether `a` is a power of two; allocation alignments always are.
pub open spec fn spec_is_power_of_two(a: u64) -> bool {
    a > 0 && (a & ((a - 1) as u64)) == 0
}

/// One power of two divides any larger one.
#[verifier::spinoff_prover]
#[verifier::rlimit(100)]
proof fn lemma_pot_divides(align: u64, bs: u64)
    requires
        spec_is_power_of_two(align),
        spec_is_power_of_two(bs),
        align <= bs,
    ensures
        bs as int % align as int == 0,
{
    assert(bs % align == 0) by (bit_vector)
        requires
            align > 0,
            bs > 0,
            (align & ((align - 1) as u64)) == 0,
            (bs & ((bs - 1) as u64)) == 0,
            align <= bs,
    ;
}

/// A multiple of `bs` is a multiple of any power of two dividing `bs`.
proof fn lemma_aligned_to_divisor(x: int, bs: int, align: int)
    requires
        x >= 0,
        bs > 0,
        align > 0,
        x % bs == 0,
        bs % align == 0,
    ensures
        x % align == 0,
{
    let q = bs / align;
    vstd::arithmetic::div_mod::lemma_fundamental_div_mod(bs, align);
    assert(bs == align * q);
    assert(q > 0) by (nonlinear_arith)
        requires bs > 0, align > 0, bs == align * q;
    vstd::arithmetic::div_mod::lemma_mod_mod(x, align, q);
}

/// `a` rounded up to the next multiple of `align`.
pub open spec fn spec_align_up(a: int, align: int) -> int {
    if a % align == 0 {
        a
    } else {
        a + (align - a % align)
    }
}

/// First-fit search: the hole list and the address returned after one
/// allocation of `size` bytes aligned to `align`.
pub open spec fn fb_alloc(holes: Seq<(u64, u64)>, size: int, align: int) -> (Seq<(u64, u64)>,
    Option<u64>)
    decreases holes.len(),
{
    if holes.len() == 0 {
        (holes, None)
    } else {
        let hs = holes[0].0 as int;
        let hl = holes[0].1 as int;
        let astart = spec_align_up(hs, align);
        if astart + size <= hs + hl {
            let front = if astart > hs {
                seq![(holes[0].0, (astart - hs) as u64)]
            } else {
                Seq::empty()
            };
            let back = if astart + size < hs + hl {
                seq![((astart + size) as u64, (hs + hl - astart - size) as u64)]
            } else {
                Seq::empty()
            };
            (front + back + holes.drop_first(), Some(astart as u64))
        } else {
            let rec = fb_alloc(holes.drop_first(), size, align);
            (seq![holes[0]] + rec.0, rec.1)
        }
    }
}

/// How many holes start at or before address `a`.
pub open spec fn insertion_point(holes: Seq<(u64, u64)>, a: u64) -> int
    decreases holes.len(),
{
    if holes.len() == 0 {
        0
    } else if a < holes[0].0 {
        0
    } else {
        1 + insertion_point(holes.drop_first(), a)
    }
}

/// The hole list after returning the range `h`, kept sorted by start
/// address; a freed range adjacent to its neighbour holes is coalesced
/// with them into one hole.
pub open spec fn fb_insert(holes: Seq<(u64, u64)>, h: (u64, u64)) -> Seq<(u64, u64)> {
    let i = insertion_point(holes, h.0);
    let merge_left = i > 0 && holes[i - 1].0 + holes[i - 1].1 == h.0;
    let merge_right = i < holes.len() && h.0 + h.1 == holes[i].0;
    let lo = if merge_left {
        holes[i - 1].0
    } else {
        h.0
    };
    let sz = (if merge_left {
        holes[i - 1].1 as int
    } else {
        0
    }) + h.1 + (if merge_right {
        holes[i].1 as int
    } else {
        0
    });
    holes.take(i - (if merge_left {
        1int
    } else {
        0
    })) + seq![(lo, sz as u64)] + holes.skip(i + (if merge_right {
        1int
    } else {
        0
    }))
}

/// Where the prefix of starts at or before `a` ends.
proof fn lemma_insertion_point_at(holes: Seq<(u64, u64)>, a: u64, i: int)
    requires
        0 <= i <= holes.len(),
        forall|j: int| 0 <= j < i ==> (#[trigger] holes[j]).0 <= a,
        i < holes.len() ==> holes[i].0 > a,
    ensures
        insertion_point(holes, a) == i,
    decreases i,
{
    if i == 0 {
    } else {
        let rest = holes.drop_first();
        assert forall|j: int| 0 <= j < i - 1 implies (#[trigger] rest[j]).0 <= a by {
            assert(rest[j] == holes[j + 1]);
        }
        if i - 1 < rest.len() {
            assert(rest[i - 1] == holes[i]);
        }
        lemma_insertion_point_at(rest, a, i - 1);
    }
}

/// Sorted, disjoint, non-empty holes inside `[bottom, top)`.
pub open spec fn holes_wf(bottom: u64, top: u64, holes: Seq<(u64, u64)>) -> bool {
    &&& bottom <= top
    &&& forall|k: int|
        0 <= k < holes.len() ==> bottom <= (#[trigger] holes[k]).0 && holes[k].0 + holes[k].1
            <= top && holes[k].1 > 0
    &&& forall|k: int, l: int|
        0 <= k < l < holes.len() ==> (#[trigger] holes[k]).0 + holes[k].1
            <= (#[trigger] holes[l]).0
}

/// Alignment rounds up by less than one `align` and lands on a multiple.
#[verifier::spinoff_prover]
proof fn lemma_align_up(a: int, align: int)
    requires
        align > 0,
        a >= 0,
    ensures
        a <= spec_align_up(a, align) < a + align,
        spec_align_up(a, align) % align == 0,
{
    assert(a <= spec_align_up(a, align) < a + align && spec_align_up(a, align) % align == 0)
        by (nonlinear_arith)
        requires align > 0, a >= 0;
}

/// A first-fit step keeps the hole list well-formed, and what it returns
/// is an aligned range inside the allocator's span.
proof fn lemma_fb_alloc_wf(bottom: u64, top: u64, holes: Seq<(u64, u64)>, size: int, align: int)
    requires
        holes_wf(bottom, top, holes),
        size > 0,
        align > 0,
    ensures
        holes_wf(bottom, top, fb_alloc(holes, size, align).0),
        match fb_alloc(holes, size, align).1 {
            Some(a) => bottom <= a && a + size <= top && (a as int) % align == 0,
            None => true,
        },
        holes.len() > 0 ==> forall|k: int|
            0 <= k < fb_alloc(holes, size, align).0.len() ==> (#[trigger] fb_alloc(holes, size,
                align).0[k]).0 >= holes[0].0,
    decreases holes.len(),
{
    if holes.len() > 0 {
        let hs = holes[0].0 as int;
        let hl = holes[0].1 as int;
        let astart = spec_align_up(hs, align);
        lemma_align_up(hs, align);
        let rest = holes.drop_first();
        assert forall|k: int| 0 <= k < rest.len() implies bottom <= (#[trigger] rest[k]).0
            && rest[k].0 + rest[k].1 <= top && rest[k].1 > 0 && rest[k].0 >= hs + hl by {
            assert(rest[k] == holes[k + 1]);
        }
        assert forall|k: int, l: int|
            0 <= k < l < rest.len() implies (#[trigger] rest[k]).0 + rest[k].1
            <= (#[trigger] rest[l]).0 by {
            assert(rest[k] == holes[k + 1]);
            assert(rest[l] == holes[l + 1]);
        }
        if astart + size <= hs + hl {
            let result = fb_alloc(holes, size, align).0;
            let front: Seq<(u64, u64)> = if astart > hs {
                seq![(holes[0].0, (astart - hs) as u64)]
            } else {
                Seq::empty()
            };
            let back: Seq<(u64, u64)> = if astart + size < hs + hl {
                seq![((astart + size) as u64, (hs + hl - astart - size) as u64)]
            } else {
                Seq::empty()
            };
            assert(result == front + back + rest);
            assert forall|k: int, l: int|
                0 <= k < l < result.len() implies (#[trigger] result[k]).0 + result[k].1
                <= (#[trigger] result[l]).0 by {
                let nf = front.len() as int;
                let nb = back.len() as int;
                if k >= nf + nb {
                    assert(result[k] == rest[k - nf - nb]);
                    assert(result[l] == rest[l - nf - nb]);
                } else if l >= nf + nb {
                    assert(result[l] == rest[l - nf - nb]);
                    assert(result[l].0 >= hs + hl);
                }
            }
        } else {
            lemma_fb_alloc_wf(bottom, top, rest, size, align);
            let rec = fb_alloc(rest, size, align);
            let result = fb_alloc(holes, size, align).0;
            assert(result == seq![holes[0]] + rec.0);
            assert forall|k: int, l: int|
                0 <= k < l < result.len() implies (#[trigger] result[k]).0 + result[k].1
                <= (#[trigger] result[l]).0 by {
                if k > 0 {
                    assert(result[k] == rec.0[k - 1]);
                    assert(result[l] == rec.0[l - 1]);
                } else {
                    assert(result[l] == rec.0[l - 1]);
                    if rest.len() > 0 {
                        assert(rec.0[l - 1].0 >= rest[0].0);
                    }
                }
            }
        }
    }
}

/// Inserting a freed range disjoint from every hole keeps the hole
/// list well-formed, merging included.
proof fn lemma_fb_insert_wf(bottom: u64, top: u64, holes: Seq<(u64, u64)>, h: (u64, u64))
    requires
        holes_wf(bottom, top, holes),
        h.1 > 0,
        bottom <= h.0,
        h.0 + h.1 <= top,
        forall|k: int|
            0 <= k < holes.len() ==> h.0 + h.1 <= (#[trigger] holes[k]).0 || holes[k].0
                + holes[k].1 <= h.0,
    ensures
        holes_wf(bottom, top, fb_insert(holes, h)),
{
    let i = insertion_point(holes, h.0);
    lemma_insertion_point_bounds(holes, h.0);
    // holes before the insertion point end at or before the freed
    // range; later holes start at or after its end
    assert forall|j: int| 0 <= j < i implies (#[trigger] holes[j]).0 + holes[j].1
        <= h.0 by {
        assert(holes[j].0 <= h.0);
    }
    assert forall|j: int| i <= j < holes.len() implies h.0 + h.1
        <= (#[trigger] holes[j]).0 by {
        assert(holes[j].0 > h.0);
    }
    let merge_left = i > 0 && holes[i - 1].0 + holes[i - 1].1 == h.0;
    let merge_right = i < holes.len() && h.0 + h.1 == holes[i].0;
    let result = fb_insert(holes, h);
    let a = i - (if merge_left { 1int } else { 0 });
    let b = i + (if merge_right { 1int } else { 0 });
    assert(result == holes.take(a) + seq![result[a]] + holes.skip(b));
    assert forall|k: int, l: int|
        0 <= k < l < result.len() implies (#[trigger] result[k]).0 + result[k].1
        <= (#[trigger] result[l]).0 by {
        if k < a && l < a {
        } else if k >= a + 1 && l >= a + 1 {
            assert(result[k] == holes[k - a - 1 + b]);
            assert(result[l] == holes[l - a - 1 + b]);
        } else if k < a && l == a {
            assert(result[k] == holes[k]);
        } else if k < a && l > a {
            assert(result[k] == holes[k]);
            assert(result[l] == holes[l - a - 1 + b]);
        } else {
            assert(k == a && l > a);
            assert(result[l] == holes[l - a - 1 + b]);
        }
    }
}

/// The insertion point is a valid split position of a sorted list.
proof fn lemma_insertion_point_bounds(holes: Seq<(u64, u64)>, a: u64)
    requires
        forall|k: int| 0 <= k < holes.len() ==> (#[trigger] holes[k]).1 > 0,
        forall|k: int, l: int|
            0 <= k < l < holes.len() ==> (#[trigger] holes[k]).0 + holes[k].1
                <= (#[trigger] holes[l]).0,
    ensures
        0 <= insertion_point(holes, a) <= holes.len(),
        forall|j: int|
            0 <= j < insertion_point(holes, a) ==> (#[trigger] holes[j]).0 <= a,
        forall|j: int|
            insertion_point(holes, a) <= j < holes.len() ==> (#[trigger] holes[j]).0 > a,
    decreases holes.len(),
{
    if holes.len() > 0 && !(a < holes[0].0) {
        let rest = holes.drop_first();
        assert forall|k: int, l: int|
            0 <= k < l < rest.len() implies (#[trigger] rest[k]).0 + rest[k].1
            <= (#[trigger] rest[l]).0 by {
            assert(rest[k] == holes[k + 1]);
            assert(rest[l] == holes[l + 1]);
        }
        assert forall|k: int| 0 <= k < rest.len() implies (#[trigger] rest[k]).1 > 0 by {
            assert(rest[k] == holes[k + 1]);
        }
        lemma_insertion_point_bounds(rest, a);
        assert forall|j: int|
            0 <= j < insertion_point(holes, a) implies (#[trigger] holes[j]).0 <= a by {
            if j > 0 {
                assert(rest[j - 1] == holes[j]);
            }
        }
        assert forall|j: int|
            insertion_point(holes, a) <= j < holes.len() implies (#[trigger] holes[j]).0
            > a by {
            assert(rest[j - 1] == holes[j]);
        }
    } else if holes.len() > 0 {
        assert forall|j: int| 0 <= j < holes.len() implies (#[trigger] holes[j]).0 > a by {
            if j > 0 {
                assert(holes[0].0 + holes[0].1 <= holes[j].0);
            }
        }
    }
}

/// First-fit free-list allocator over the heap range that no size class
/// owns; serves requests too large or too aligned for any class.
pub struct FallbackAllocator {
    pub bottom: u64,
    pub top: u64,
    pub holes: Vec<(u64, u64)>,
}

impl FallbackAllocator {
    pub open spec fn wf(&self) -> bool {
        holes_wf(self.bottom, self.top, self.holes@)
    }

    /// An allocator over the empty range.
    pub fn empty() -> (r: Self)
        ensures
            r.wf(),
            r.bottom == 0,
            r.top == 0,
            r.holes@.len() == 0,
    {
        FallbackAllocator { bottom: 0, top: 0, holes: Vec::new() }
    }

    /// Give the allocator its heap range, initially one single hole.
    pub fn init(&mut self, heap_start: u64, heap_size: u64)
        requires
            heap_start + heap_size <= u64::MAX,
        ensures
            final(self).wf(),
            final(self).bottom == heap_start,
            final(self).top == heap_start + heap_size,
            heap_size > 0 ==> final(self).holes@ =~= seq![(heap_start, heap_size)],
            heap_size == 0 ==> final(self).holes@.len() == 0,
    {
        self.bottom = heap_start;
        self.top = heap_start + heap_size;
        let mut holes: Vec<(u64, u64)> = Vec::new();
        if heap_size > 0 {
            holes.push((heap_start, heap_size));
        }
        self.holes = holes;
    }

    /// Carve the request out of the first hole it fits in, splitting
    /// the hole's unused front and back off as new holes.
    #[verifier::spinoff_prover]
    #[verifier::rlimit(60)]
    pub fn allocate_first_fit(&mut self, size: u64, align: u64) -> (r: Option<u64>)
        requires
            old(self).wf(),
            size > 0,
            align > 0,
        ensures
            final(self).wf(),
            final(self).bottom == old(self).bottom,
            final(self).top == old(self).top,
            final(self).holes@ == fb_alloc(old(self).holes@, size as int, align as int).0,
            r == fb_alloc(old(self).holes@, size as int, align as int).1,
            r matches Some(a) ==> a % align == 0 && old(self).bottom <= a && a + size
                <= old(self).top,
    {
        let ghost orig = self.holes@;
        let ghost s = size as int;
        let ghost al = align as int;
        proof {
            lemma_fb_alloc_wf(self.bottom, self.top, orig, s, al);
            assert(orig.skip(0) =~= orig);
            assert(orig.take(0) + fb_alloc(orig.skip(0), s, al).0 =~= fb_alloc(orig, s, al).0);
            match fb_alloc(orig, s, al).1 {
                Some(a) => {
                    assert((a % align) as int == (a as int) % al) by (nonlinear_arith)
                        requires align > 0, al == align as int;
                },
                None => {},
            }
        }
        let mut idx: usize = 0;
        while idx < self.holes.len()
            invariant
                self.wf(),
                size > 0,
                align > 0,
                s == size as int,
                al == align as int,
                self.holes@ == orig,
                orig == old(self).holes@,
                self.bottom == old(self).bottom,
                self.top == old(self).top,
                0 <= idx <= orig.len(),
                fb_alloc(orig, s, al).0 == orig.take(idx as int) + fb_alloc(
                    orig.skip(idx as int), s, al).0,
                fb_alloc(orig, s, al).1 == fb_alloc(orig.skip(idx as int), s, al).1,
            decreases orig.len() - idx,
        {
            let (hs, hl) = self.holes[idx];
            proof {
                assert(orig.skip(idx as int)[0] == orig[idx as int]);
                assert(orig.skip(idx as int).drop_first() =~= orig.skip(idx as int + 1));
            }
            let rem = hs % align;
            let adjust = if rem == 0 { 0 } else { align - rem };
            proof {
                assert(spec_align_up(hs as int, al) == hs + adjust);
            }
            if adjust <= hl && size <= hl - adjust {
                let astart = hs + adjust;
                proof {
                    lemma_fb_alloc_wf(self.bottom, self.top, orig, s, al);
                    match fb_alloc(orig, s, al).1 {
                        Some(a) => {
                            assert((a % align) as int == (a as int) % al) by (nonlinear_arith)
                                requires align > 0, al == align as int;
                        },
                        None => {},
                    }
                }
                let _ = self.holes.remove(idx);
                let mut insert_at = idx;
                if adjust > 0 {
                    self.holes.insert(insert_at, (hs, adjust));
                    insert_at = insert_at + 1;
                }
                if size < hl - adjust {
                    self.holes.insert(insert_at, (astart + size, hl - adjust - size));
                }
                proof {
                    let front: Seq<(u64, u64)> = if adjust > 0 {
                        seq![(hs, adjust)]
                    } else {
                        Seq::empty()
                    };
                    let back: Seq<(u64, u64)> = if s < hl - adjust {
                        seq![((astart + size) as u64, (hl - adjust - size) as u64)]
                    } else {
                        Seq::empty()
                    };
                    assert(fb_alloc(orig.skip(idx as int), s, al) == (front + back
                        + orig.skip(idx as int + 1), Some(astart))) by {
                        assert(spec_align_up(hs as int, al) == hs + adjust);
                    };
                    assert(self.holes@ =~= orig.take(idx as int) + (front + back
                        + orig.skip(idx as int + 1)));
                    assert(self.holes@ == fb_alloc(orig, s, al).0);
                    assert(Some(astart) == fb_alloc(orig, s, al).1);
                }
                return Some(astart);
            }
            idx = idx + 1;
            proof {
                assert(orig.take(idx as int) =~= orig.take(idx as int - 1)
                    + seq![orig[idx as int - 1]]);
                assert(orig.take(idx as int) + fb_alloc(orig.skip(idx as int), s, al).0
                    =~= orig.take(idx as int - 1) + (seq![orig[idx as int - 1]] + fb_alloc(
                    orig.skip(idx as int), s, al).0));
            }
        }
        proof {
            assert(orig.skip(orig.len() as int) =~= Seq::<(u64, u64)>::empty());
            assert(orig.take(orig.len() as int) =~= orig);
            assert(orig.take(orig.len() as int) + fb_alloc(orig.skip(orig.len() as int), s,
                al).0 =~= orig);
        }
        None
    }

    /// Return a previously allocated range; the hole list stays sorted,
    /// and a freed range adjacent to existing holes merges with them.
    pub fn deallocate(&mut self, addr: u64, size: u64)
        requires
            old(self).wf(),
            size > 0,
            old(self).bottom <= addr,
            addr + size <= old(self).top,
            forall|k: int|
                0 <= k < old(self).holes@.len() ==> addr + size <= (#[trigger] old(
                    self).holes@[k]).0 || old(self).holes@[k].0 + old(self).holes@[k].1 <= addr,
        ensures
            final(self).wf(),
            final(self).bottom == old(self).bottom,
            final(self).top == old(self).top,
            final(self).holes@ == fb_insert(old(self).holes@, (addr, size)),
    {
        let ghost orig = self.holes@;
        proof {
            lemma_fb_insert_wf(self.bottom, self.top, orig, (addr, size));
            lemma_insertion_point_bounds(orig, addr);
        }
        let mut idx: usize = 0;
        while idx < self.holes.len() && self.holes[idx].0 <= addr
            invariant
                self.wf(),
                *self == *old(self),
                self.holes@ == orig,
                0 <= idx <= orig.len(),
                forall|j: int| 0 <= j < idx ==> (#[trigger] orig[j]).0 <= addr,
            decreases orig.len() - idx,
        {
            idx = idx + 1;
        }
        proof {
            lemma_insertion_point_at(orig, addr, idx as int);
        }
        let merge_left = idx > 0 && {
            let (ps, pl) = self.holes[idx - 1];
            ps + pl == addr
        };
        let merge_right = idx < self.holes.len() && addr + size == self.holes[idx].0;
        if merge_left && merge_right {
            let (ps, pl) = self.holes[idx - 1];
            let (_, nl) = self.holes[idx];
            self.holes[idx - 1] = (ps, pl + size + nl);
            let _ = self.holes.remove(idx);
            proof {
                assert(self.holes@ =~= fb_insert(orig, (addr, size)));
            }
        } else if merge_left {
            let (ps, pl) = self.holes[idx - 1];
            self.holes[idx - 1] = (ps, pl + size);
            proof {
                assert(self.holes@ =~= fb_insert(orig, (addr, size)));
            }
        } else if merge_right {
            let (ns, nl) = self.holes[idx];
            self.holes[idx] = (addr, size + nl);
            proof {
                assert(self.holes@ =~= fb_insert(orig, (addr, size)));
            }
        } else {
            self.holes.insert(idx, (addr, size));
            proof {
                assert(self.holes@ =~= fb_insert(orig, (addr, size)));
            }
        }
    }
}

/// One size-class pool: equal-size blocks carved from a contiguous
/// sub-range of the heap, with a LIFO free list of block addresses.
pub struct Slab {
    pub block_size: u64,
    pub region_start: u64,
    pub region_size: u64,
    pub blocks_count: u64,
    pub free_blocks: Vec<u64>,
}

/// Whether `ptr` is the base of one of the pool's blocks.
pub open spec fn is_block_of(s: Slab, ptr: u64) -> bool {
    &&& s.region_start <= ptr
    &&& ptr < s.region_start + s.blocks_count * s.block_size
    &&& (ptr - s.region_start) % (s.block_size as int) == 0
}

impl Slab {
    pub open spec fn wf(&self) -> bool {
        &&& self.region_start + self.region_size <= u64::MAX
        &&& self.blocks_count <= usize::MAX
        &&& self.block_size > 0 ==> {
            &&& self.region_start as int % self.block_size as int == 0
            &&& self.blocks_count * self.block_size <= self.region_size
            &&& forall|k: int|
                0 <= k < self.free_blocks@.len() ==> is_block_of(*self,
                    #[trigger] self.free_blocks@[k])
            &&& forall|k: int, l: int|
                0 <= k < l < self.free_blocks@.len() ==> self.free_blocks@[k]
                    != self.free_blocks@[l]
        }
        &&& self.block_size == 0 ==> self.free_blocks@.len() == 0 && self.blocks_count == 0
    }

    /// An empty pool, before the heap range is assigned.
    pub fn new() -> (r: Self)
        ensures
            r.wf(),
            r.block_size == 0,
            r.blocks_count == 0,
            r.free_blocks@.len() == 0,
            r.region_start == 0,
            r.region_size == 0,
    {
        Slab {
            block_size: 0,
            region_start: 0,
            region_size: 0,
            blocks_count: 0,
            free_blocks: Vec::new(),
        }
    }

    /// Assign the pool its heap sub-range and carve it into blocks; the
    /// free list then holds every block, lowest address on top.
    pub fn init(&mut self, block_size: u64, heap_start: u64, heap_size: u64)
        requires
            block_size > 0,
            heap_start as int % block_size as int == 0,
            heap_start + heap_size <= u64::MAX,
            heap_size as int / block_size as int <= usize::MAX,
        ensures
            final(self).wf(),
            final(self).block_size == block_size,
            final(self).region_start == heap_start,
            final(self).region_size == heap_size,
            final(self).blocks_count == heap_size as int / block_size as int,
            final(self).free_blocks@.len() == final(self).blocks_count,
            forall|k: int|
                0 <= k < final(self).free_blocks@.len() ==> #[trigger] final(
                    self).free_blocks@[k] == heap_start + (final(self).blocks_count - 1 - k)
                    * block_size,
    {
        self.block_size = block_size;
        self.region_start = heap_start;
        self.region_size = heap_size;
        let blocks_count = heap_size / block_size;
        self.blocks_count = blocks_count;
        proof {
            vstd::arithmetic::div_mod::lemma_fundamental_div_mod(heap_size as int,
                block_size as int);
            assert(blocks_count * block_size <= heap_size) by (nonlinear_arith)
                requires
                    block_size > 0,
                    blocks_count == heap_size as int / block_size as int,
                    heap_size as int == block_size as int * (heap_size as int
                        / block_size as int) + heap_size as int % block_size as int,
                    heap_size as int % block_size as int >= 0;
        }
        let mut free_blocks: Vec<u64> = Vec::new();
        let mut k: u64 = 0;
        while k < blocks_count
            invariant
                0 <= k <= blocks_count,
                blocks_count <= usize::MAX,
                blocks_count * block_size <= heap_size,
                heap_start + heap_size <= u64::MAX,
                block_size > 0,
                free_blocks@.len() == k,
                forall|j: int|
                    0 <= j < k ==> #[trigger] free_blocks@[j] == heap_start + (blocks_count - 1
                        - j) * block_size,
            decreases blocks_count - k,
        {
            let idx = blocks_count - 1 - k;
            proof {
                assert(idx * block_size < blocks_count * block_size) by (nonlinear_arith)
                    requires 0 <= idx < blocks_count, block_size > 0;
                assert(idx * block_size >= 0) by (nonlinear_arith)
                    requires idx >= 0, block_size > 0;
            }
            let addr = heap_start + idx * block_size;
            free_blocks.push(addr);
            k = k + 1;
        }
        self.free_blocks = free_blocks;
        proof {
            assert forall|j: int|
                0 <= j < self.free_blocks@.len() implies is_block_of(*self,
                #[trigger] self.free_blocks@[j]) by {
                let idx = blocks_count - 1 - j;
                assert(self.free_blocks@[j] == heap_start + idx * block_size);
                assert(idx * block_size + block_size <= blocks_count * block_size)
                    by (nonlinear_arith)
                    requires 0 <= idx < blocks_count;
                assert((idx * block_size) % (block_size as int) == 0) by (nonlinear_arith)
                    requires block_size > 0, idx >= 0;
            }
            assert forall|k2: int, l: int|
                0 <= k2 < l < self.free_blocks@.len() implies self.free_blocks@[k2]
                != self.free_blocks@[l] by {
                let a = blocks_count - 1 - k2;
                let b = blocks_count - 1 - l;
                assert(b * block_size < a * block_size) by (nonlinear_arith)
                    requires b < a, block_size > 0;
            }
        }
    }

    /// Pop the top of the free list, if the pool is not exhausted.
    pub fn allocate(&mut self) -> (r: Option<u64>)
        requires
            old(self).wf(),
        ensures
            final(self).wf(),
            r == slab_alloc_result(old(self).free_blocks@),
            final(self).block_size == old(self).block_size,
            final(self).region_start == old(self).region_start,
            final(self).region_size == old(self).region_size,
            final(self).blocks_count == old(self).blocks_count,
            old(self).free_blocks@.len() > 0 ==> final(self).free_blocks@
                == old(self).free_blocks@.drop_last(),
            old(self).free_blocks@.len() == 0 ==> final(self).free_blocks@
                == old(self).free_blocks@,
            r matches Some(p) ==> is_block_of(*old(self), p),
    {
        let r = self.free_blocks.pop();
        r
    }

    /// Push a block back; it becomes the next block handed out.
    pub fn deallocate(&mut self, ptr: u64)
        requires
            old(self).wf(),
            old(self).block_size > 0,
            is_block_of(*old(self), ptr),
            !old(self).free_blocks@.contains(ptr),
        ensures
            final(self).wf(),
            final(self).block_size == old(self).block_size,
            final(self).region_start == old(self).region_start,
            final(self).region_size == old(self).region_size,
            final(self).blocks_count == old(self).blocks_count,
            final(self).free_blocks@ == slab_after_dealloc(old(self).free_blocks@, ptr),
    {
        self.free_blocks.push(ptr);
        proof {
            assert forall|k: int, l: int|
                0 <= k < l < self.free_blocks@.len() implies self.free_blocks@[k]
                != self.free_blocks@[l] by {
                if l == self.free_blocks@.len() - 1 {
                    assert(old(self).free_blocks@[k] == self.free_blocks@[k]);
                    assert(old(self).free_blocks@.contains(self.free_blocks@[k]));
                }
            }
        }
    }
}

/// A pool block never reaches past the pool's sub-range.
pub proof fn lemma_block_headroom(s: Slab, ptr: u64)
    requires
        s.wf(),
        s.block_size > 0,
        is_block_of(s, ptr),
    ensures
        ptr + s.block_size <= s.region_start + s.region_size,
{
    let bs = s.block_size as int;
    let d = ptr - s.region_start;
    vstd::arithmetic::div_mod::lemma_fundamental_div_mod(d as int, bs);
    let q = d as int / bs;
    assert(d == bs * q);
    assert(q < s.blocks_count) by (nonlinear_arith)
        requires
            bs > 0,
            d == bs * q,
            d < s.blocks_count * bs,
    ;
    assert(bs * q + bs <= s.blocks_count * bs) by (nonlinear_arith)
        requires bs > 0, q < s.blocks_count;
    assert(s.blocks_count * bs <= s.region_size);
}

/// Whether `ptr` lies in the pool's assigned heap sub-range.
pub open spec fn in_region(s: Slab, ptr: u64) -> bool {
    s.region_start <= ptr < s.region_start + s.region_size
}

/// The first pool whose sub-range contains `ptr`, if any.
pub open spec fn region_of(slabs: Seq<Slab>, ptr: u64) -> Option<int>
    decreases slabs.len(),
{
    if slabs.len() == 0 {
        None
    } else if in_region(slabs[0], ptr) {
        Some(0int)
    } else {
        match region_of(slabs.drop_first(), ptr) {
            Some(i) => Some(i + 1),
            None => None,
        }
    }
}

proof fn lemma_region_of_prefix(slabs: Seq<Slab>, ptr: u64, i: int)
    requires
        0 <= i <= slabs.len(),
        forall|j: int| 0 <= j < i ==> !in_region(#[trigger] slabs[j], ptr),
    ensures
        region_of(slabs, ptr) == match region_of(slabs.skip(i), ptr) {
            Some(k) => Some(k + i),
            None => None::<int>,
        },
    decreases i,
{
    if i == 0 {
        assert(slabs.skip(0) =~= slabs);
    } else {
        let rest = slabs.drop_first();
        assert forall|j: int| 0 <= j < i - 1 implies !in_region(#[trigger] rest[j], ptr) by {
            assert(rest[j] == slabs[j + 1]);
        }
        lemma_region_of_prefix(rest, ptr, i - 1);
        assert(rest.skip(i - 1) =~= slabs.skip(i));
    }
}

/// Pool fields other than the free list.
pub open spec fn slab_fields_eq(a: Slab, b: Slab) -> bool {
    &&& a.block_size == b.block_size
    &&& a.region_start == b.region_start
    &&& a.region_size == b.region_size
    &&& a.blocks_count == b.blocks_count
}

/// Pools equal up to the view of their free lists.
pub open spec fn slab_eq(a: Slab, b: Slab) -> bool {
    slab_fields_eq(a, b) && a.free_blocks@ == b.free_blocks@
}

/// Fallback allocators equal up to the view of their hole lists.
pub open spec fn fb_eq(a: FallbackAllocator, b: FallbackAllocator) -> bool {
    a.bottom == b.bottom && a.top == b.top && a.holes@ == b.holes@
}

/// Whether an allocation of `size`/`align` is served by a pool: a size
/// class fits and that class still has a free block.
pub open spec fn slab_route_hit(pre: SlabAllocator, size: u64, align: u64) -> bool {
    match find_slab_index_spec(size as int, align as int) {
        Some(i) => pre.slabs@[i].free_blocks@.len() > 0,
        None => false,
    }
}

/// How one heap allocation changes the allocator and what it returns.
pub open spec fn heap_alloc_rel(pre: SlabAllocator, post: SlabAllocator, size: u64, align: u64,
    r: Option<u64>) -> bool {
    &&& post.slabs@.len() == pre.slabs@.len()
    &&& if slab_route_hit(pre, size, align) {
        let i = find_slab_index_spec(size as int, align as int).unwrap();
        &&& r == Some(pre.slabs@[i].free_blocks@.last())
        &&& post.slabs@[i].free_blocks@ == pre.slabs@[i].free_blocks@.drop_last()
        &&& slab_fields_eq(post.slabs@[i], pre.slabs@[i])
        &&& forall|j: int|
            0 <= j < pre.slabs@.len() && j != i ==> slab_eq(#[trigger] post.slabs@[j],
                pre.slabs@[j])
        &&& fb_eq(post.fallback_allocator, pre.fallback_allocator)
    } else {
        &&& forall|j: int|
            0 <= j < pre.slabs@.len() ==> slab_eq(#[trigger] post.slabs@[j], pre.slabs@[j])
        &&& post.fallback_allocator.bottom == pre.fallback_allocator.bottom
        &&& post.fallback_allocator.top == pre.fallback_allocator.top
        &&& post.fallback_allocator.holes@ == fb_alloc(pre.fallback_allocator.holes@,
            size as int, align as int).0
        &&& r == fb_alloc(pre.fallback_allocator.holes@, size as int, align as int).1
    }
}

/// How one heap deallocation changes the allocator.
pub open spec fn heap_dealloc_rel(pre: SlabAllocator, post: SlabAllocator, ptr: u64, size: u64)
    -> bool {
    &&& post.slabs@.len() == pre.slabs@.len()
    &&& match region_of(pre.slabs@, ptr) {
        Some(i) => {
            &&& post.slabs@[i].free_blocks@ == slab_after_dealloc(
                pre.slabs@[i].free_blocks@, ptr)
            &&& slab_fields_eq(post.slabs@[i], pre.slabs@[i])
            &&& forall|j: int|
                0 <= j < pre.slabs@.len() && j != i ==> slab_eq(#[trigger] post.slabs@[j],
                    pre.slabs@[j])
            &&& fb_eq(post.fallback_allocator, pre.fallback_allocator)
        },
        None => {
            &&& forall|j: int|
                0 <= j < pre.slabs@.len() ==> slab_eq(#[trigger] post.slabs@[j],
                    pre.slabs@[j])
            &&& post.fallback_allocator.bottom == pre.fallback_allocator.bottom
            &&& post.fallback_allocator.top == pre.fallback_allocator.top
            &&& post.fallback_allocator.holes@ == fb_insert(
                pre.fallback_allocator.holes@, (ptr, size))
        },
    }
}

/// The equal share of the heap each size class is given.
pub open spec fn class_share(heap_size: u64) -> int {
    heap_size as int / (NUM_BLOCK_SIZES + 1) as int
}

/// Where class `i`'s share begins, before alignment.
pub open spec fn class_share_base(heap_start: u64, heap_size: u64, i: int) -> int {
    heap_start + i * class_share(heap_size)
}

/// Where class `i`'s pool begins: its share's start rounded up to the
/// class's block size, so that every block of the pool is aligned.
pub open spec fn class_region_start(heap_start: u64, heap_size: u64, i: int) -> int {
    spec_align_up(class_share_base(heap_start, heap_size, i), spec_block_size(i))
}

/// The bytes class `i`'s pool keeps of its share, after alignment.
pub open spec fn class_region_size(heap_start: u64, heap_size: u64, i: int) -> int {
    let pad = class_region_start(heap_start, heap_size, i) - class_share_base(heap_start,
        heap_size, i);
    if pad <= class_share(heap_size) {
        class_share(heap_size) - pad
    } else {
        0
    }
}

/// A freshly initialized heap over `[heap_start, heap_start + heap_size)`:
/// one equal share per size class, aligned to the class's block size and
/// fully carved into free blocks in address order, and the remainder as
/// the fallback allocator's single hole.
pub open spec fn heap_laid_out(a: SlabAllocator, heap_start: u64, heap_size: u64) -> bool {
    let shs = class_share(heap_size);
    &&& forall|i: int|
        0 <= i < NUM_BLOCK_SIZES ==> {
            let s = #[trigger] a.slabs@[i];
            &&& s.block_size == spec_block_size(i)
            &&& s.region_start == class_region_start(heap_start, heap_size, i)
            &&& s.region_size == class_region_size(heap_start, heap_size, i)
            &&& s.blocks_count == class_region_size(heap_start, heap_size, i)
                / spec_block_size(i)
            &&& s.free_blocks@.len() == s.blocks_count
            &&& forall|k: int|
                0 <= k < s.free_blocks@.len() ==> #[trigger] s.free_blocks@[k]
                    == s.region_start + (s.blocks_count - 1 - k) * s.block_size
        }
    &&& heap_size - NUM_BLOCK_SIZES as int * shs > 0 ==> {
        &&& a.fallback_allocator.bottom == heap_start + NUM_BLOCK_SIZES as int * shs
        &&& a.fallback_allocator.top == heap_start + heap_size
        &&& a.fallback_allocator.holes@ == seq![((heap_start
            + NUM_BLOCK_SIZES as int * shs) as u64, (heap_size
            - NUM_BLOCK_SIZES as int * shs) as u64)]
    }
}

/// The process-wide heap allocator: one pool per size class plus the
/// first-fit fallback.
pub struct SlabAllocator {
    pub slabs: Vec<Slab>,
    pub fallback_allocator: FallbackAllocator,
}

impl SlabAllocator {
    pub open spec fn wf(&self) -> bool {
        &&& self.slabs@.len() == NUM_BLOCK_SIZES
        &&& forall|i: int| 0 <= i < self.slabs@.len() ==> (#[trigger] self.slabs@[i]).wf()
        &&& forall|i: int|
            0 <= i < self.slabs@.len() ==> ((#[trigger] self.slabs@[i]).block_size
                == spec_block_size(i) || self.slabs@[i].block_size == 0)
        &&& self.fallback_allocator.wf()
    }

    /// An empty heap allocator; no pool owns memory yet.
    pub fn new() -> (r: Self)
        ensures
            r.wf(),
            forall|i: int|
                0 <= i < NUM_BLOCK_SIZES ==> (#[trigger] r.slabs@[i]).block_size == 0
                    && r.slabs@[i].free_blocks@.len() == 0,
            r.fallback_allocator.holes@.len() == 0,
    {
        let mut slabs: Vec<Slab> = Vec::new();
        let mut i: usize = 0;
        while i < NUM_BLOCK_SIZES
            invariant
                0 <= i <= NUM_BLOCK_SIZES,
                slabs@.len() == i,
                forall|j: int|
                    0 <= j < i ==> (#[trigger] slabs@[j]).wf() && slabs@[j].block_size == 0
                        && slabs@[j].free_blocks@.len() == 0,
            decreases NUM_BLOCK_SIZES - i,
        {
            slabs.push(Slab::new());
            i = i + 1;
        }
        SlabAllocator { slabs, fallback_allocator: FallbackAllocator::empty() }
    }

    /// Split the heap range evenly: one share per size class, carved into
    /// blocks, and the remainder to the fallback allocator.
    pub fn init(&mut self, heap_start: u64, heap_size: u64)
        requires
            old(self).wf(),
            heap_start + heap_size + 4096 <= u64::MAX,
            heap_size as int / 8 <= usize::MAX,
        ensures
            final(self).wf(),
            heap_laid_out(*final(self), heap_start, heap_size),
    {
        let slab_heap_size = heap_size / (NUM_BLOCK_SIZES as u64 + 1);
        let ghost shs = slab_heap_size as int;
        proof {
            vstd::arithmetic::div_mod::lemma_fundamental_div_mod(heap_size as int, 11);
            assert(11 * shs <= heap_size);
            assert(shs / 8 <= heap_size as int / 8) by (nonlinear_arith)
                requires 0 <= shs, 11 * shs <= heap_size as int;
        }
        let mut current_heap_start = heap_start;
        let mut i: usize = 0;
        while i < NUM_BLOCK_SIZES
            invariant
                0 <= i <= NUM_BLOCK_SIZES,
                self.slabs@.len() == NUM_BLOCK_SIZES,
                shs == slab_heap_size as int,
                shs == class_share(heap_size),
                heap_start + heap_size + 4096 <= u64::MAX,
                11 * shs <= heap_size as int,
                shs / 8 <= usize::MAX,
                current_heap_start == heap_start + i * shs,
                forall|j: int|
                    i <= j < NUM_BLOCK_SIZES ==> (#[trigger] self.slabs@[j]).wf(),
                self.fallback_allocator == old(self).fallback_allocator,
                self.fallback_allocator.wf(),
                forall|j: int|
                    0 <= j < i ==> {
                        let s = #[trigger] self.slabs@[j];
                        &&& s.wf()
                        &&& s.block_size == spec_block_size(j)
                        &&& s.region_start == class_region_start(heap_start, heap_size, j)
                        &&& s.region_size == class_region_size(heap_start, heap_size, j)
                        &&& s.blocks_count == class_region_size(heap_start, heap_size, j)
                            / spec_block_size(j)
                        &&& s.free_blocks@.len() == s.blocks_count
                        &&& forall|k: int|
                            0 <= k < s.free_blocks@.len() ==> #[trigger] s.free_blocks@[k]
                                == s.region_start + (s.blocks_count - 1 - k) * s.block_size
                    },
            decreases NUM_BLOCK_SIZES - i,
        {
            let bs = block_size(i);
            proof {
                assert((i + 1) * shs <= 11 * shs) by (nonlinear_arith)
                    requires 0 <= shs, i + 1 <= 11;
                assert(i * shs + shs == (i + 1) * shs) by (nonlinear_arith);
                assert(shs / (bs as int) <= shs / 8) by (nonlinear_arith)
                    requires bs >= 8, shs >= 0;
            }
            // round the share's start up to the class's block size so
            // that every block of the pool is aligned to it
            let rem = current_heap_start % bs;
            let aligned_start = if rem == 0 {
                current_heap_start
            } else {
                current_heap_start + (bs - rem)
            };
            proof {
                assert(aligned_start == class_region_start(heap_start, heap_size, i as int));
                assert(aligned_start as int % bs as int == 0) by (nonlinear_arith)
                    requires
                        bs > 0,
                        rem == current_heap_start as int % bs as int,
                        aligned_start as int == if rem == 0 {
                            current_heap_start as int
                        } else {
                            current_heap_start + (bs - rem)
                        },
                ;
            }
            let pad = aligned_start - current_heap_start;
            let region_size = if pad <= slab_heap_size {
                slab_heap_size - pad
            } else {
                0
            };
            proof {
                assert(region_size == class_region_size(heap_start, heap_size, i as int));
                assert(region_size as int / bs as int <= shs / (bs as int))
                    by (nonlinear_arith)
                    requires bs > 0, 0 <= region_size <= shs;
            }
            self.slabs[i].init(bs, aligned_start, region_size);
            current_heap_start = current_heap_start + slab_heap_size;
            i = i + 1;
        }
        proof {
            assert(10 * shs <= 11 * shs) by (nonlinear_arith)
                requires shs >= 0;
        }
        let remaining_size = heap_size - slab_heap_size * (NUM_BLOCK_SIZES as u64);
        if remaining_size > 0 {
            self.fallback_allocator.init(current_heap_start, remaining_size);
        }
        proof {
            assert(i * shs == 10 * shs) by (nonlinear_arith)
                requires i == 10;
        }
    }

    /// The size class that serves a request of `size` bytes aligned to
    /// `align`, if any class's block is large enough.
    pub fn find_slab_index(&self, size: u64, align: u64) -> (r: Option<usize>)
        ensures
            r matches Some(u) ==> find_slab_index_spec(size as int, align as int)
                == Some(u as int),
            r is None ==> find_slab_index_spec(size as int, align as int) is None,
    {
        let required_block_size = if size >= align { size } else { align };
        let mut i: usize = 0;
        while i < NUM_BLOCK_SIZES
            invariant
                0 <= i <= NUM_BLOCK_SIZES,
                forall|j: int| 0 <= j < i ==> spec_block_size(j) < required_block_size,
                required_block_size == if size >= align { size } else { align },
            decreases NUM_BLOCK_SIZES - i,
        {
            if block_size(i) >= required_block_size {
                proof {
                    if i > 0 {
                        assert(spec_block_size(i as int - 1) < required_block_size);
                    }
                }
                return Some(i);
            }
            i = i + 1;
        }
        proof {
            assert(spec_block_size(NUM_BLOCK_SIZES as int - 1) < required_block_size);
        }
        None
    }

    /// Serve a request from the fitting size class's pool, or fall back
    /// to the first-fit allocator when no class fits or the class is
    /// exhausted.
    pub fn allocate(&mut self, size: u64, align: u64) -> (r: Option<u64>)
        requires
            old(self).wf(),
            size > 0,
            spec_is_power_of_two(align),
        ensures
            final(self).wf(),
            heap_alloc_rel(*old(self), *final(self), size, align, r),
            r matches Some(a) ==> a + size <= u64::MAX,
            r matches Some(a) ==> a as int % align as int == 0,
    {
        if let Some(index) = self.find_slab_index(size, align) {
            let ptr_opt = self.slabs[index].allocate();
            if let Some(ptr) = ptr_opt {
                proof {
                    let slab = old(self).slabs@[index as int];
                    lemma_block_headroom(slab, ptr);
                    assert(slab.block_size >= size);
                    // the pool's block size is a power of two at least
                    // `align`, and blocks sit on block-size boundaries
                    assert(slab.block_size >= align);
                    let bsz = slab.block_size;
                    assert(spec_is_power_of_two(bsz)) by (bit_vector)
                        requires bsz == 8 || bsz == 16 || bsz == 32 || bsz == 64
                            || bsz == 128 || bsz == 256 || bsz == 512 || bsz == 1024
                            || bsz == 2048 || bsz == 4096;
                    lemma_pot_divides(align, slab.block_size);
                    assert((ptr - slab.region_start) % (slab.block_size as int) == 0);
                    let rs = slab.region_start as int;
                    let bw = slab.block_size as int;
                    let pv = ptr as int;
                    vstd::arithmetic::div_mod::lemma_add_mod_noop(rs, pv - rs, bw);
                    vstd::arithmetic::div_mod::lemma_small_mod(0, bw as nat);
                    assert(pv % bw == 0);
                    lemma_aligned_to_divisor(ptr as int, slab.block_size as int,
                        align as int);
                }
                return Some(ptr);
            }
        }
        self.fallback_allocator.allocate_first_fit(size, align)
    }

    /// Return a block to the pool whose sub-range contains it, or to the
    /// fallback allocator when no pool owns it.
    pub fn deallocate(&mut self, ptr: u64, size: u64, align: u64)
        requires
            old(self).wf(),
            match region_of(old(self).slabs@, ptr) {
                Some(i) => {
                    &&& old(self).slabs@[i].block_size > 0
                    &&& is_block_of(old(self).slabs@[i], ptr)
                    &&& !old(self).slabs@[i].free_blocks@.contains(ptr)
                },
                None => {
                    &&& size > 0
                    &&& old(self).fallback_allocator.bottom <= ptr
                    &&& ptr + size <= old(self).fallback_allocator.top
                    &&& forall|k: int|
                        0 <= k < old(self).fallback_allocator.holes@.len() ==> ptr + size
                            <= (#[trigger] old(self).fallback_allocator.holes@[k]).0
                            || old(self).fallback_allocator.holes@[k].0
                            + old(self).fallback_allocator.holes@[k].1 <= ptr
                },
            },
        ensures
            final(self).wf(),
            heap_dealloc_rel(*old(self), *final(self), ptr, size),
    {
        let ghost slabs0 = self.slabs@;
        let mut i: usize = 0;
        while i < NUM_BLOCK_SIZES
            invariant
                self.wf(),
                self.slabs@ == slabs0,
                slabs0 == old(self).slabs@,
                self.fallback_allocator == old(self).fallback_allocator,
                0 <= i <= NUM_BLOCK_SIZES,
                forall|j: int| 0 <= j < i ==> !in_region(#[trigger] slabs0[j], ptr),
                match region_of(old(self).slabs@, ptr) {
                    Some(k) => {
                        &&& old(self).slabs@[k].block_size > 0
                        &&& is_block_of(old(self).slabs@[k], ptr)
                        &&& !old(self).slabs@[k].free_blocks@.contains(ptr)
                    },
                    None => {
                        &&& size > 0
                        &&& old(self).fallback_allocator.bottom <= ptr
                        &&& ptr + size <= old(self).fallback_allocator.top
                        &&& forall|k: int|
                            0 <= k < old(self).fallback_allocator.holes@.len() ==> ptr + size
                                <= (#[trigger] old(self).fallback_allocator.holes@[k]).0
                                || old(self).fallback_allocator.holes@[k].0
                                + old(self).fallback_allocator.holes@[k].1 <= ptr
                    },
                },
            decreases NUM_BLOCK_SIZES - i,
        {
            let region_start = self.slabs[i].region_start;
            let region_size = self.slabs[i].region_size;
            if ptr >= region_start && region_size > 0 && ptr - region_start < region_size {
                proof {
                    lemma_region_of_prefix(slabs0, ptr, i as int);
                    assert(slabs0.skip(i as int)[0] == slabs0[i as int]);
                    assert(region_of(slabs0.skip(i as int), ptr) == Some(0int));
                    assert(region_of(slabs0, ptr) == Some(i as int));
                }
                self.slabs[i].deallocate(ptr);
                return;
            }
            i = i + 1;
        }
        proof {
            lemma_region_of_prefix(slabs0, ptr, NUM_BLOCK_SIZES as int);
            assert(slabs0.skip(NUM_BLOCK_SIZES as int) =~= Seq::<Slab>::empty());
            assert(region_of(slabs0, ptr) is None);
        }
        self.fallback_allocator.deallocate(ptr, size);
    }

    /// Per size class: the block size, how many blocks are free, and how
    /// many blocks the class owns in all.
    pub fn slab_usage(&self) -> (r: Vec<(u64, usize, u64)>)
        requires
            self.wf(),
        ensures
            r@.len() == NUM_BLOCK_SIZES,
            forall|i: int|
                0 <= i < NUM_BLOCK_SIZES ==> (#[trigger] r@[i]).0 == self.slabs@[i].block_size
                    && r@[i].1 == self.slabs@[i].free_blocks@.len()
                    && r@[i].2 == self.slabs@[i].blocks_count,
    {
        let mut r: Vec<(u64, usize, u64)> = Vec::new();
        let mut i: usize = 0;
        while i < NUM_BLOCK_SIZES
            invariant
                self.wf(),
                0 <= i <= NUM_BLOCK_SIZES,
                r@.len() == i,
                forall|j: int|
                    0 <= j < i ==> (#[trigger] r@[j]).0 == self.slabs@[j].block_size
                        && r@[j].1 == self.slabs@[j].free_blocks@.len()
                        && r@[j].2 == self.slabs@[j].blocks_count,
            decreases NUM_BLOCK_SIZES - i,
        {
            let s = (self.slabs[i].block_size, self.slabs[i].free_blocks.len(),
                self.slabs[i].blocks_count);
            r.push(s);
            i = i + 1;
        }
        r
    }
}

/// A block freed into a size class is returned by the very next
/// allocation that routes to that class.
pub proof fn lemma_heap_reuse(a0: SlabAllocator, a1: SlabAllocator, a2: SlabAllocator,
    ptr: u64, size: u64, align: u64, r: Option<u64>)
    requires
        a0.wf(),
        region_of(a0.slabs@, ptr) == find_slab_index_spec(size as int, align as int),
        region_of(a0.slabs@, ptr) is Some,
        heap_dealloc_rel(a0, a1, ptr, size),
        heap_alloc_rel(a1, a2, size, align, r),
    ensures
        r == Some(ptr),
{
    let i = region_of(a0.slabs@, ptr).unwrap();
    lemma_region_of_bounds(a0.slabs@, ptr);
    assert(a1.slabs@[i].free_blocks@ == a0.slabs@[i].free_blocks@.push(ptr));
    assert(a1.slabs@[i].free_blocks@.len() > 0);
    assert(slab_route_hit(a1, size, align));
    assert(r == Some(a1.slabs@[i].free_blocks@.last()));
}

/// The index returned by `region_of` is a valid position.
proof fn lemma_region_of_bounds(slabs: Seq<Slab>, ptr: u64)
    ensures
        match region_of(slabs, ptr) {
            Some(i) => 0 <= i < slabs.len() && in_region(slabs[i], ptr),
            None => true,
        },
    decreases slabs.len(),
{
    if slabs.len() > 0 && !in_region(slabs[0], ptr) {
        lemma_region_of_bounds(slabs.drop_first(), ptr);
    }
}

/// Map the heap's fixed virtual range onto freshly allocated frames and
/// initialize the slab allocator over it. Called exactly once, before
/// any allocation.
pub fn init_heap<A: FrameAllocator>(mapper: &mut PageTables, frame_allocator: &mut A) -> (r:
    Result<SlabAllocator, MapError>)
    requires
        old(mapper).wf(),
        old(frame_allocator).inv(),
    ensures
        final(mapper).wf(),
        final(frame_allocator).inv(),
        r matches Ok(a) ==> a.wf() && heap_laid_out(a, HEAP_START, HEAP_SIZE),
        r is Ok ==> forall|j: u64|
            j < HEAP_SIZE / 4096 ==> final(mapper).spec_translate(#[trigger] page_at(
                HEAP_START, j)) is Some,
        r is Ok ==> forall|j: u64|
            j < HEAP_SIZE / 4096 ==> final(mapper).spec_flags(#[trigger] page_at(
                HEAP_START, j)) == Some(PAGE_PRESENT | PAGE_WRITABLE),
        // every heap page is backed by its own frame
        r is Ok ==> forall|j1: u64, j2: u64|
            #![trigger page_at(HEAP_START, j1), page_at(HEAP_START, j2)]
            j1 < HEAP_SIZE / 4096 && j2 < HEAP_SIZE / 4096 && j1 != j2 ==> final(
                mapper).spec_translate(page_at(HEAP_START, j1)) != final(
                mapper).spec_translate(page_at(HEAP_START, j2)),
        forall|va: u64|
            #![trigger final(mapper).spec_translate(va)]
            old(mapper).spec_translate(va) is Some ==> final(mapper).spec_translate(va)
                is Some,
        forall|va: u64|
            #![trigger final(mapper).spec_translate(va)]
            final(mapper).spec_translate(va) != old(mapper).spec_translate(va) ==> exists|
                j: u64| j < HEAP_SIZE / 4096 && crate::memory::paging::same_suffix(va,
                page_at(HEAP_START, j), 4),
        r == Err::<SlabAllocator, MapError>(MapError::PageAlreadyMapped) ==> exists|j: u64|
            j < HEAP_SIZE / 4096 && old(mapper).spec_translate(#[trigger] page_at(
                HEAP_START, j)) is Some,
        r == Err::<SlabAllocator, MapError>(MapError::FrameAllocationFailed) ==> final(
            frame_allocator).peek() is None,
        (forall|j: u64|
            j < HEAP_SIZE / 4096 ==> old(mapper).spec_translate(#[trigger] page_at(
                HEAP_START, j)) is None) && (forall|j: u64|
            j < HEAP_SIZE / 4096 ==> !crate::memory::paging::huge_on_path(
                old(mapper).level_4_table, 4, #[trigger] page_at(HEAP_START, j)))
            && old(frame_allocator).frames_left() >= 4 * (HEAP_SIZE / 4096) ==> r is Ok,
{
    let page_count = HEAP_SIZE / 4096;
    match map_range(mapper, frame_allocator, HEAP_START, page_count,
        PAGE_PRESENT | PAGE_WRITABLE) {
        Ok(_) => {},
        Err(e) => {
            return Err(e);
        },
    }
    let mut allocator = SlabAllocator::new();
    allocator.init(HEAP_START, HEAP_SIZE);
    Ok(allocator)
}

} // verus!
