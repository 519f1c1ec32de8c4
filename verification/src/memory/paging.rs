//! The four-level page-table model: translation, mapping and unmapping,
//! with large-page (2 MiB / 1 GiB) leaves as first-class entries.
//!
//! A decoded entry is not-present, a reference to the next-level table,
//! or a terminal leaf; a leaf at level 3 covers 1 GiB, at level 2 it
//! covers 2 MiB, and at level 1 the base 4 KiB unit. A table owns its
//! next-level tables outright, so an entry can never alias another
//! table: the illegal states of a raw hardware walk are unrepresentable.
//! Each created table draws one physical frame from the frame allocator,
//! as the hardware tables do.

use vstd::prelude::*;
use crate::memory::frame_allocator::FrameAllocator;

verus! {

/// Entry bit kept in a leaf: the mapping is present.
pub const PAGE_PRESENT: u64 = 1;

/// Entry bit kept in a leaf: the mapping is writable.
pub const PAGE_WRITABLE: u64 = 2;

/// One decoded page-table entry.
pub enum PageTableEntry {
    /// No mapping below this slot.
    NotPresent,
    /// A present entry designating exactly one next-level table.
    Table(Box<PageTable>),
    /// A terminal mapping: physical base address and entry flags.
    Leaf { base: u64, flags: u64 },
}

/// One page table: 512 entries.
pub struct PageTable {
    pub entries: Vec<PageTableEntry>,
}

/// The whole translation hierarchy, rooted at the level-4 table.
pub struct PageTables {
    pub level_4_table: PageTable,
}

/// The 9-bit index field of `va` that selects the entry at `level`
/// (level 4 is the root, level 1 the terminal 4 KiB level).
pub open spec fn va_level_index(va: u64, level: int) -> int {
    ((va >> ((3 + 9 * level) as u64)) & 0x1ff) as int
}

/// Bytes covered by one leaf at `level`.
pub open spec fn granularity(level: int) -> int {
    if level == 3 {
        0x4000_0000
    } else if level == 2 {
        0x20_0000
    } else {
        0x1000
    }
}

/// The part of `va` a leaf at `level` does not translate.
pub open spec fn offset_mask(level: int) -> u64 {
    if level == 3 {
        0x3fff_ffff
    } else if level == 2 {
        0x1f_ffff
    } else {
        0xfff
    }
}

/// Structural soundness of a table at `level`: 512 entries, next-level
/// tables only above level 1, leaves only at levels 1 to 3, and each
/// leaf base aligned to the leaf's coverage.
pub open spec fn table_wf(t: PageTable, level: int) -> bool
    decreases level,
{
    &&& t.entries@.len() == 512
    &&& forall|i: int|
        0 <= i < 512 ==> match #[trigger] t.entries@[i] {
            PageTableEntry::NotPresent => true,
            PageTableEntry::Table(next) => level >= 2 && table_wf(*next, level - 1),
            PageTableEntry::Leaf { base, flags } => 1 <= level <= 3 && base as int % granularity(
                level) == 0,
        }
}

/// The walk from a table at `level`: fail on a missing entry, stop at a
/// leaf, descend through a table reference.
pub open spec fn translate_at(t: PageTable, level: int, va: u64) -> Option<u64>
    decreases level,
{
    if level < 1 || t.entries@.len() != 512 {
        None
    } else {
        match t.entries@[va_level_index(va, level)] {
            PageTableEntry::NotPresent => None,
            PageTableEntry::Table(next) => if level >= 2 {
                translate_at(*next, level - 1, va)
            } else {
                None
            },
            PageTableEntry::Leaf { base, flags } => if level <= 3 {
                Some((base + (va & offset_mask(level))) as u64)
            } else {
                None
            },
        }
    }
}

/// The entry flags recorded for `va`, by the same walk as
/// `translate_at`; present exactly where a translation is.
pub open spec fn flags_at(t: PageTable, level: int, va: u64) -> Option<u64>
    decreases level,
{
    if level < 1 || t.entries@.len() != 512 {
        None
    } else {
        match t.entries@[va_level_index(va, level)] {
            PageTableEntry::NotPresent => None,
            PageTableEntry::Table(next) => if level >= 2 {
                flags_at(*next, level - 1, va)
            } else {
                None
            },
            PageTableEntry::Leaf { base, flags } => if level <= 3 {
                Some(flags)
            } else {
                None
            },
        }
    }
}

/// Whether every intermediate table on `va`'s walk already exists, down
/// to the terminal level: mapping `va` then needs no new table.
pub open spec fn tables_present_at(t: PageTable, level: int, va: u64) -> bool
    decreases level,
{
    if level <= 1 {
        true
    } else if t.entries@.len() != 512 {
        false
    } else {
        match t.entries@[va_level_index(va, level)] {
            PageTableEntry::Table(next) => tables_present_at(*next, level - 1, va),
            PageTableEntry::NotPresent => false,
            PageTableEntry::Leaf { .. } => false,
        }
    }
}

/// Whether the walk for `va` ends on a huge (level 3 or 2) leaf.
pub open spec fn huge_on_path(t: PageTable, level: int, va: u64) -> bool
    decreases level,
{
    if level < 1 || t.entries@.len() != 512 {
        false
    } else {
        match t.entries@[va_level_index(va, level)] {
            PageTableEntry::NotPresent => false,
            PageTableEntry::Table(next) => level >= 2 && huge_on_path(*next, level - 1, va),
            PageTableEntry::Leaf { base, flags } => level >= 2,
        }
    }
}

/// Whether `va` and `page` agree on every index field from `level` down
/// to the terminal level: the walk for both reads the same slots.
pub open spec fn same_suffix(va: u64, page: u64, level: int) -> bool {
    forall|l: int| 1 <= l <= level ==> va_level_index(va, l) == va_level_index(page, l)
}

impl PageTables {
    pub open spec fn wf(&self) -> bool {
        table_wf(self.level_4_table, 4)
    }

    /// What the hierarchy maps `va` to.
    pub open spec fn spec_translate(&self, va: u64) -> Option<u64> {
        translate_at(self.level_4_table, 4, va)
    }

    /// The entry flags of `va`'s mapping, if it has one.
    pub open spec fn spec_flags(&self, va: u64) -> Option<u64> {
        flags_at(self.level_4_table, 4, va)
    }
}

/// Why a new mapping could not be installed.
#[derive(Clone, Copy, Debug, PartialEq, Eq, Structural)]
pub enum MapError {
    /// The frame allocator could not supply a frame for a missing
    /// intermediate table.
    FrameAllocationFailed,
    /// The walk hit a huge leaf above the terminal level.
    ParentEntryHugePage,
    /// The page already has a terminal mapping.
    PageAlreadyMapped,
}

/// Why a mapping could not be removed.
#[derive(Clone, Copy, Debug, PartialEq, Eq, Structural)]
pub enum UnmapError {
    /// The walk hit a huge leaf above the terminal level.
    ParentEntryHugePage,
    /// The page has no terminal mapping.
    PageNotMapped,
}

/// A table with 512 not-present entries.
fn empty_table() -> (r: PageTable)
    ensures
        r.entries@.len() == 512,
        forall|i: int| 0 <= i < 512 ==> #[trigger] r.entries@[i] is NotPresent,
{
    let mut entries: Vec<PageTableEntry> = Vec::new();
    let mut i: usize = 0;
    while i < 512
        invariant
            0 <= i <= 512,
            entries@.len() == i,
            forall|j: int| 0 <= j < i ==> #[trigger] entries@[j] is NotPresent,
        decreases 512 - i,
    {
        entries.push(PageTableEntry::NotPresent);
        i = i + 1;
    }
    PageTable { entries }
}

proof fn lemma_empty_table_translates_nothing(t: PageTable, level: int)
    requires
        t.entries@.len() == 512,
        forall|i: int| 0 <= i < 512 ==> #[trigger] t.entries@[i] is NotPresent,
        1 <= level <= 4,
    ensures
        table_wf(t, level),
        forall|va: u64| translate_at(t, level, va) is None,
        forall|va: u64| flags_at(t, level, va) is None,
        forall|va: u64| !huge_on_path(t, level, va),
{
    assert forall|va: u64| translate_at(t, level, va) is None by {
        lemma_va_index_bounds(va, level);
    }
    assert forall|va: u64| flags_at(t, level, va) is None by {
        lemma_va_index_bounds(va, level);
    }
    assert forall|va: u64| !huge_on_path(t, level, va) by {
        lemma_va_index_bounds(va, level);
    }
}

/// Every 9-bit index field selects a valid slot.
proof fn lemma_va_index_bounds(va: u64, level: int)
    ensures
        0 <= va_level_index(va, level) < 512,
{
    let sh = (3 + 9 * level) as u64;
    assert((va >> sh) & 0x1ff < 512) by (bit_vector);
}

/// Initialize an empty translation hierarchy; nothing is mapped and no
/// huge leaf exists anywhere.
pub fn init() -> (r: PageTables)
    ensures
        r.wf(),
        forall|va: u64| r.spec_translate(va) is None,
        forall|va: u64| r.spec_flags(va) is None,
        forall|va: u64| !huge_on_path(r.level_4_table, 4, va),
{
    let root = empty_table();
    proof {
        lemma_empty_table_translates_nothing(root, 4);
    }
    PageTables { level_4_table: root }
}

/// The 9-bit table index of `va` at `level`.
fn level_index(va: u64, level: u64) -> (r: usize)
    requires
        1 <= level <= 4,
    ensures
        r == va_level_index(va, level as int),
        r < 512,
{
    proof {
        lemma_va_index_bounds(va, level as int);
        let sh = (3 + 9 * (level as int)) as u64;
        assert(sh == 3 + 9 * level) by (nonlinear_arith)
            requires 1 <= level <= 4, sh == (3 + 9 * (level as int)) as u64;
    }
    ((va >> (3 + 9 * level)) & 0x1ff) as usize
}

/// Physical address of the 4 KiB unit holding `va` inside a huge leaf:
/// the leaf's base plus the index fields the leaf does not translate.
fn handle_huge_page(base: u64, level: u64, va: u64) -> (r: u64)
    requires
        level == 2 || level == 3,
        base as int % granularity(level as int) == 0,
    ensures
        r as int + (va & 0xfff) == base + (va & offset_mask(level as int)),
        base + (va & offset_mask(level as int)) <= u64::MAX,
{
    proof {
        assert((va >> 21) & 0x1ff <= 511u64) by (bit_vector);
        assert((va >> 12) & 0x1ff <= 511u64) by (bit_vector);
    }
    if level == 3 {
        // 1 GiB leaf: the level-2 and level-1 fields remain untranslated
        proof {
            assert(base % 0x4000_0000u64 == 0);
            assert(base % 0x4000_0000u64 == 0 ==> base <= 0xffff_ffff_c000_0000u64)
                by (bit_vector);
            assert(base <= 0xffff_ffff_c000_0000u64);
            assert(va & 0x3fff_ffffu64 <= 0x3fff_ffffu64) by (bit_vector);
            assert(((va >> 21) & 0x1ff) * 0x20_0000 + ((va >> 12) & 0x1ff) * 0x1000
                + (va & 0xfffu64) == (va & 0x3fff_ffffu64)) by (bit_vector);
        }
        let p2_part = ((va >> 21) & 0x1ff) * 0x20_0000;
        let p1_part = ((va >> 12) & 0x1ff) * 0x1000;
        base + (p2_part + p1_part)
    } else {
        // 2 MiB leaf: the level-1 field remains untranslated
        proof {
            assert(base % 0x20_0000u64 == 0);
            assert(base % 0x20_0000u64 == 0 ==> base <= 0xffff_ffff_ffe0_0000u64)
                by (bit_vector);
            assert(base <= 0xffff_ffff_ffe0_0000u64);
            assert(va & 0x1f_ffffu64 <= 0x1f_ffffu64) by (bit_vector);
            assert(((va >> 12) & 0x1ff) * 0x1000 + (va & 0xfffu64) == (va & 0x1f_ffffu64))
                by (bit_vector);
        }
        let p1_part = ((va >> 12) & 0x1ff) * 0x1000;
        base + p1_part
    }
}

/// Resolve a virtual address to the physical address it maps to, or
/// `None` if the walk meets a not-present entry at any level.
pub fn virt_to_phys(pt: &PageTables, virtual_address: u64) -> (r: Option<u64>)
    requires
        pt.wf(),
    ensures
        r == pt.spec_translate(virtual_address),
{
    let va = virtual_address;
    let mut table: &PageTable = &pt.level_4_table;
    let mut level: u64 = 4;
    loop
        invariant
            va == virtual_address,
            1 <= level <= 4,
            table_wf(*table, level as int),
            translate_at(*table, level as int, va) == pt.spec_translate(va),
        decreases level,
    {
        let idx = level_index(va, level);
        match &table.entries[idx] {
            PageTableEntry::NotPresent => {
                proof {
                    assert(translate_at(*table, level as int, va) is None);
                }
                return None;
            },
            PageTableEntry::Leaf { base, flags } => {
                if level == 4 {
                    // well-formedness keeps leaves off the root level
                    proof {
                        assert(false);
                    }
                    return None;
                } else if level >= 2 {
                    // huge leaf: 1 GiB at level 3, 2 MiB at level 2
                    let frame_base = handle_huge_page(*base, level, va);
                    proof {
                        assert(translate_at(*table, level as int, va)
                            == Some((*base + (va & offset_mask(level as int))) as u64));
                    }
                    return Some(frame_base + (va & 0xfff));
                } else {
                    proof {
                        assert(*base as int % granularity(1) == 0);
                        assert(*base % 0x1000u64 == 0);
                        assert(base % 0x1000u64 == 0 ==> base <= 0xffff_ffff_ffff_f000u64)
                            by (bit_vector);
                        assert(va & 0xfffu64 <= 0xfffu64) by (bit_vector);
                        assert(translate_at(*table, level as int, va)
                            == Some((*base + (va & offset_mask(1))) as u64));
                    }
                    return Some(*base + (va & 0xfff));
                }
            },
            PageTableEntry::Table(next) => {
                if level == 1 {
                    // well-formedness keeps table references off the
                    // terminal level
                    proof {
                        assert(false);
                    }
                    return None;
                }
                proof {
                    assert(translate_at(*table, level as int, va)
                        == translate_at(**next, level as int - 1, va));
                }
                table = next;
                level = level - 1;
            },
        }
    }
}

proof fn lemma_same_suffix_step(va: u64, page: u64, level: int)
    requires
        level >= 1,
    ensures
        same_suffix(va, page, level) == (va_level_index(va, level) == va_level_index(page,
            level) && same_suffix(va, page, level - 1)),
{
    if va_level_index(va, level) == va_level_index(page, level) && same_suffix(va, page, level
        - 1) {
        assert forall|l: int| 1 <= l <= level implies va_level_index(va, l) == va_level_index(
            page, l) by {
            if l < level {
                assert(same_suffix(va, page, level - 1));
            }
        }
    }
    if same_suffix(va, page, level) {
        assert(va_level_index(va, level) == va_level_index(page, level));
        assert forall|l: int| 1 <= l <= level - 1 implies va_level_index(va, l)
            == va_level_index(page, l) by {
            assert(same_suffix(va, page, level));
        }
    }
}

/// Install a 4 KiB mapping below a table at `level`, creating missing
/// intermediate tables; each new table consumes one allocator frame.
fn map_at<A: FrameAllocator>(t: &mut PageTable, level: u64, page: u64, frame: u64, flags: u64,
    allocator: &mut A) -> (r: Result<(), MapError>)
    requires
        1 <= level <= 4,
        table_wf(*old(t), level as int),
        old(allocator).inv(),
        frame % 4096 == 0,
    ensures
        final(allocator).inv(),
        table_wf(*final(t), level as int),
        forall|i: int|
            0 <= i < 512 && i != va_level_index(page, level as int) ==> final(t).entries@[i]
                == old(t).entries@[i],
        r is Ok ==> forall|va: u64|
            #[trigger] same_suffix(va, page, level as int) ==> translate_at(*final(t),
                level as int, va) == Some((frame + (va & 0xfff)) as u64),
        r is Err ==> forall|va: u64|
            #[trigger] same_suffix(va, page, level as int) ==> translate_at(*final(t),
                level as int, va) == translate_at(*old(t), level as int, va),
        forall|va: u64|
            !#[trigger] same_suffix(va, page, level as int) ==> translate_at(*final(t),
                level as int, va) == translate_at(*old(t), level as int, va),
        (r == Err::<(), MapError>(MapError::ParentEntryHugePage)) == huge_on_path(*old(t), level as int, page),
        (r == Err::<(), MapError>(MapError::PageAlreadyMapped)) == (!huge_on_path(*old(t), level as int, page)
            && translate_at(*old(t), level as int, page) is Some),
        r == Err::<(), MapError>(MapError::FrameAllocationFailed) ==> translate_at(*old(t), level as int,
            page) is None,
        r is Ok ==> forall|va: u64|
            #[trigger] same_suffix(va, page, level as int) ==> flags_at(*final(t),
                level as int, va) == Some(flags),
        r is Err ==> forall|va: u64|
            #[trigger] same_suffix(va, page, level as int) ==> flags_at(*final(t),
                level as int, va) == flags_at(*old(t), level as int, va),
        forall|va: u64|
            !#[trigger] same_suffix(va, page, level as int) ==> flags_at(*final(t),
                level as int, va) == flags_at(*old(t), level as int, va),
        forall|va: u64|
            #![trigger huge_on_path(*final(t), level as int, va)]
            huge_on_path(*final(t), level as int, va) == huge_on_path(*old(t),
                level as int, va),
        tables_present_at(*old(t), level as int, page) && !huge_on_path(*old(t),
            level as int, page) && translate_at(*old(t), level as int, page) is None
            ==> r is Ok,
        old(allocator).frames_left() >= level - 1 && !huge_on_path(*old(t), level as int,
            page) && translate_at(*old(t), level as int, page) is None ==> r is Ok,
        final(allocator).frames_left() >= old(allocator).frames_left() - (level - 1),
        forall|f: u64|
            old(allocator).spec_issued(f) ==> final(allocator).spec_issued(f),
        r == Err::<(), MapError>(MapError::FrameAllocationFailed) ==> final(
            allocator).peek() is None,
    decreases level,
{
    let idx = level_index(page, level);
    if level == 1 {
        let is_free = match &t.entries[idx] {
            PageTableEntry::NotPresent => true,
            _ => false,
        };
        if is_free {
            t.entries[idx] = PageTableEntry::Leaf { base: frame, flags };
            proof {
                assert(frame % 0x1000u64 == 0);
                assert(frame % 0x1000u64 == 0 ==> frame <= 0xffff_ffff_ffff_f000u64)
                    by (bit_vector);
                assert forall|va: u64| #[trigger] same_suffix(va, page, 1int) implies
                    translate_at(*t, 1, va) == Some((frame + (va & 0xfff)) as u64) by {
                    lemma_va_index_bounds(va, 1);
                    assert(va & 0xfffu64 <= 0xfffu64) by (bit_vector);
                    assert(va_level_index(va, 1) == va_level_index(page, 1));
                }
                assert forall|va: u64| !#[trigger] same_suffix(va, page, 1int) implies
                    translate_at(*t, 1, va) == translate_at(*old(t), 1, va) by {
                    lemma_va_index_bounds(va, 1);
                    lemma_same_suffix_step(va, page, 1);
                    assert(same_suffix(va, page, 0));
                    assert(va_level_index(va, 1) != va_level_index(page, 1));
                }
                assert forall|va: u64| #[trigger] same_suffix(va, page, 1int) implies
                    flags_at(*t, 1, va) == Some(flags) by {
                    lemma_va_index_bounds(va, 1);
                    assert(va_level_index(va, 1) == va_level_index(page, 1));
                }
                assert forall|va: u64| !#[trigger] same_suffix(va, page, 1int) implies
                    flags_at(*t, 1, va) == flags_at(*old(t), 1, va) by {
                    lemma_va_index_bounds(va, 1);
                    lemma_same_suffix_step(va, page, 1);
                    assert(same_suffix(va, page, 0));
                    assert(va_level_index(va, 1) != va_level_index(page, 1));
                }
                // a terminal leaf is never a huge leaf
                assert forall|va: u64|
                    #![trigger huge_on_path(*t, 1, va)]
                    huge_on_path(*t, 1, va) == huge_on_path(*old(t), 1, va) by {
                    lemma_va_index_bounds(va, 1);
                }
            }
            Ok(())
        } else {
            proof {
                match old(t).entries@[idx as int] {
                    PageTableEntry::NotPresent => { assert(false); },
                    PageTableEntry::Table(_) => { assert(false); },
                    PageTableEntry::Leaf { .. } => {},
                }
            }
            Err(MapError::PageAlreadyMapped)
        }
    } else {
        // make sure the slot designates a next-level table
        let is_missing = match &t.entries[idx] {
            PageTableEntry::NotPresent => true,
            _ => false,
        };
        if is_missing {
            // a new table occupies one physical frame
            let table_frame = allocator.allocate_frame();
            match table_frame {
                None => {
                    return Err(MapError::FrameAllocationFailed);
                },
                Some(_) => {},
            }
            let nt = empty_table();
            proof {
                lemma_empty_table_translates_nothing(nt, level as int - 1);
            }
            t.entries[idx] = PageTableEntry::Table(Box::new(nt));
        }
        let is_huge_leaf = match &t.entries[idx] {
            PageTableEntry::Leaf { .. } => true,
            _ => false,
        };
        if is_huge_leaf {
            proof {
                assert(!is_missing);
                assert(old(t).entries@[idx as int] is Leaf);
            }
            return Err(MapError::ParentEntryHugePage);
        }
        let ghost t1 = *t;
        let ghost child0 = t1.entries@[idx as int];
        let ghost alloc0 = *allocator;
        match &mut t.entries[idx] {
            PageTableEntry::Table(next) => {
                proof {
                    assert(child0 matches PageTableEntry::Table(b) && *b == **next);
                    assert(table_wf(**next, level as int - 1));
                }
                let r = map_at(&mut **next, level - 1, page, frame, flags, allocator);
                proof {
                    let lv = level as int;
                    let told = *old(t);
                    let tnew = *t;
                    assert(tnew.entries@[idx as int] matches PageTableEntry::Table(b)
                        && table_wf(*b, lv - 1));
                    // walks that agree with `page` on this level's index
                    // descend into the updated child
                    assert forall|va: u64|
                        va_level_index(va, lv) == va_level_index(page, lv) implies
                        translate_at(tnew, lv, va) == translate_at(
                            *tnew.entries@[idx as int]->Table_0, lv - 1, va)
                        && translate_at(t1, lv, va) == translate_at(*child0->Table_0, lv - 1,
                            va)
                        && flags_at(tnew, lv, va) == flags_at(
                            *tnew.entries@[idx as int]->Table_0, lv - 1, va)
                        && huge_on_path(tnew, lv, va) == huge_on_path(
                            *tnew.entries@[idx as int]->Table_0, lv - 1, va) by {
                        lemma_va_index_bounds(va, lv);
                    }
                    // the old walk either used the old child or found nothing
                    if is_missing {
                        assert(told.entries@[idx as int] is NotPresent);
                        assert forall|va: u64|
                            va_level_index(va, lv) == va_level_index(page, lv) implies
                            translate_at(told, lv, va) is None
                            && flags_at(told, lv, va) is None
                            && !huge_on_path(told, lv, va)
                            && translate_at(*child0->Table_0, lv - 1, va) is None
                            && flags_at(*child0->Table_0, lv - 1, va) is None
                            && !huge_on_path(*child0->Table_0, lv - 1, va) by {
                            lemma_empty_table_translates_nothing(*child0->Table_0, lv - 1);
                        }
                        assert(!huge_on_path(told, lv, page));
                        assert(translate_at(told, lv, page) is None);
                    } else {
                        assert(told.entries@[idx as int] == child0);
                        assert(huge_on_path(told, lv, page) == huge_on_path(*child0->Table_0,
                            lv - 1, page));
                        assert(translate_at(told, lv, page) == translate_at(*child0->Table_0,
                            lv - 1, page));
                        assert forall|va: u64|
                            va_level_index(va, lv) == va_level_index(page, lv) implies
                            translate_at(told, lv, va) == translate_at(*child0->Table_0,
                                lv - 1, va)
                            && flags_at(told, lv, va) == flags_at(*child0->Table_0, lv - 1,
                                va)
                            && huge_on_path(told, lv, va) == huge_on_path(*child0->Table_0,
                                lv - 1, va) by {
                            lemma_va_index_bounds(va, lv);
                        }
                    }
                    // lift the child's per-address facts one level up
                    assert forall|va: u64| #[trigger] same_suffix(va, page, lv) implies
                        va_level_index(va, lv) == va_level_index(page, lv)
                        && same_suffix(va, page, lv - 1) by {
                        lemma_same_suffix_step(va, page, lv);
                    }
                    assert forall|va: u64| !#[trigger] same_suffix(va, page, lv) implies
                        translate_at(tnew, lv, va) == translate_at(told, lv, va)
                        && flags_at(tnew, lv, va) == flags_at(told, lv, va) by {
                        lemma_same_suffix_step(va, page, lv);
                        lemma_va_index_bounds(va, lv);
                        if va_level_index(va, lv) == va_level_index(page, lv) {
                            assert(!same_suffix(va, page, lv - 1));
                            if is_missing {
                                lemma_empty_table_translates_nothing(*child0->Table_0, lv - 1);
                            }
                        } else {
                            assert(tnew.entries@[va_level_index(va, lv)]
                                == told.entries@[va_level_index(va, lv)]);
                        }
                    }
                    // a mapping step never creates or removes huge leaves
                    assert forall|va: u64|
                        #![trigger huge_on_path(tnew, lv, va)]
                        huge_on_path(tnew, lv, va) == huge_on_path(told, lv, va) by {
                        lemma_va_index_bounds(va, lv);
                        if va_level_index(va, lv) == va_level_index(page, lv) {
                            if is_missing {
                                lemma_empty_table_translates_nothing(*child0->Table_0, lv - 1);
                            }
                        } else {
                            assert(tnew.entries@[va_level_index(va, lv)]
                                == told.entries@[va_level_index(va, lv)]);
                        }
                    }
                    if r is Err {
                        assert forall|va: u64| #[trigger] same_suffix(va, page, lv) implies
                            translate_at(tnew, lv, va) == translate_at(told, lv, va)
                            && flags_at(tnew, lv, va) == flags_at(told, lv, va) by {
                            lemma_va_index_bounds(va, lv);
                            lemma_same_suffix_step(va, page, lv);
                            if is_missing {
                                lemma_empty_table_translates_nothing(*child0->Table_0, lv - 1);
                            }
                        }
                    }
                    // error equivalences, lifted through the child call
                    assert((r == Err::<(), MapError>(MapError::ParentEntryHugePage)) == huge_on_path(told, lv,
                        page));
                    assert((r == Err::<(), MapError>(MapError::PageAlreadyMapped)) == (!huge_on_path(told, lv,
                        page) && translate_at(told, lv, page) is Some));
                    // success is owed when no allocation is needed, or
                    // when the allocator certainly has enough frames
                    if tables_present_at(told, lv, page) && !huge_on_path(told, lv, page)
                        && translate_at(told, lv, page) is None {
                        assert(!is_missing);
                        assert(tables_present_at(*child0->Table_0, lv - 1, page));
                        assert(r is Ok);
                    }
                    if old(allocator).frames_left() >= lv - 1 && !huge_on_path(told, lv,
                        page) && translate_at(told, lv, page) is None {
                        assert(alloc0.frames_left() >= lv - 2);
                        if is_missing {
                            lemma_empty_table_translates_nothing(*child0->Table_0, lv - 1);
                        }
                        assert(!huge_on_path(*child0->Table_0, lv - 1, page));
                        assert(translate_at(*child0->Table_0, lv - 1, page) is None);
                        assert(r is Ok);
                    }
                }
                r
            },
            _ => {
                proof {
                    assert(false);
                }
                Err(MapError::FrameAllocationFailed)
            },
        }
    }
}

/// Remove the 4 KiB mapping below a table at `level`, returning the
/// frame it pointed to.
fn unmap_at(t: &mut PageTable, level: u64, page: u64) -> (r: Result<u64, UnmapError>)
    requires
        1 <= level <= 4,
        table_wf(*old(t), level as int),
        page % 4096 == 0,
    ensures
        table_wf(*final(t), level as int),
        forall|i: int|
            0 <= i < 512 && i != va_level_index(page, level as int) ==> final(t).entries@[i]
                == old(t).entries@[i],
        r matches Ok(f) ==> translate_at(*old(t), level as int, page) == Some(f) && f % 4096
            == 0,
        r is Ok ==> forall|va: u64|
            #[trigger] same_suffix(va, page, level as int) ==> translate_at(*final(t),
                level as int, va) is None,
        r is Err ==> forall|va: u64|
            #[trigger] same_suffix(va, page, level as int) ==> translate_at(*final(t),
                level as int, va) == translate_at(*old(t), level as int, va),
        forall|va: u64|
            !#[trigger] same_suffix(va, page, level as int) ==> translate_at(*final(t),
                level as int, va) == translate_at(*old(t), level as int, va),
        (r == Err::<u64, UnmapError>(UnmapError::ParentEntryHugePage)) == huge_on_path(
            *old(t), level as int, page),
        (r == Err::<u64, UnmapError>(UnmapError::PageNotMapped)) == (!huge_on_path(*old(t),
            level as int, page) && translate_at(*old(t), level as int, page) is None),
    decreases level,
{
    let idx = level_index(page, level);
    if level == 1 {
        let leaf = match &t.entries[idx] {
            PageTableEntry::Leaf { base, .. } => Some(*base),
            _ => None,
        };
        match leaf {
            Some(base) => {
                t.entries[idx] = PageTableEntry::NotPresent;
                proof {
                    assert(page % 0x1000u64 == 0 ==> page & 0xfffu64 == 0) by (bit_vector);
                    assert(old(t).entries@[idx as int] matches PageTableEntry::Leaf {
                        base: b, .. } && b == base && b as int % granularity(1) == 0);
                    assert forall|va: u64| #[trigger] same_suffix(va, page, 1int) implies
                        translate_at(*t, 1, va) is None by {
                        lemma_va_index_bounds(va, 1);
                        assert(va_level_index(va, 1) == va_level_index(page, 1));
                    }
                    assert forall|va: u64| !#[trigger] same_suffix(va, page, 1int) implies
                        translate_at(*t, 1, va) == translate_at(*old(t), 1, va) by {
                        lemma_va_index_bounds(va, 1);
                        lemma_same_suffix_step(va, page, 1);
                        assert(same_suffix(va, page, 0));
                        assert(va_level_index(va, 1) != va_level_index(page, 1));
                    }
                }
                Ok(base)
            },
            None => {
                proof {
                    match old(t).entries@[idx as int] {
                        PageTableEntry::NotPresent => {},
                        PageTableEntry::Table(_) => { assert(false); },
                        PageTableEntry::Leaf { .. } => { assert(false); },
                    }
                }
                Err(UnmapError::PageNotMapped)
            },
        }
    } else {
        let is_missing = match &t.entries[idx] {
            PageTableEntry::NotPresent => true,
            _ => false,
        };
        if is_missing {
            return Err(UnmapError::PageNotMapped);
        }
        let is_huge_leaf = match &t.entries[idx] {
            PageTableEntry::Leaf { .. } => true,
            _ => false,
        };
        if is_huge_leaf {
            return Err(UnmapError::ParentEntryHugePage);
        }
        let ghost child0 = old(t).entries@[idx as int];
        match &mut t.entries[idx] {
            PageTableEntry::Table(next) => {
                proof {
                    assert(child0 matches PageTableEntry::Table(b) && *b == **next);
                    assert(table_wf(**next, level as int - 1));
                }
                let r = unmap_at(&mut **next, level - 1, page);
                proof {
                    let lv = level as int;
                    let told = *old(t);
                    let tnew = *t;
                    assert(tnew.entries@[idx as int] matches PageTableEntry::Table(b)
                        && table_wf(*b, lv - 1));
                    assert forall|va: u64|
                        va_level_index(va, lv) == va_level_index(page, lv) implies
                        translate_at(tnew, lv, va) == translate_at(
                            *tnew.entries@[idx as int]->Table_0, lv - 1, va)
                        && translate_at(told, lv, va) == translate_at(*child0->Table_0,
                            lv - 1, va) by {
                        lemma_va_index_bounds(va, lv);
                    }
                    assert(huge_on_path(told, lv, page) == huge_on_path(*child0->Table_0,
                        lv - 1, page));
                    assert(translate_at(told, lv, page) == translate_at(*child0->Table_0,
                        lv - 1, page));
                    assert forall|va: u64| #[trigger] same_suffix(va, page, lv) implies
                        va_level_index(va, lv) == va_level_index(page, lv)
                        && same_suffix(va, page, lv - 1) by {
                        lemma_same_suffix_step(va, page, lv);
                    }
                    assert forall|va: u64| !#[trigger] same_suffix(va, page, lv) implies
                        translate_at(tnew, lv, va) == translate_at(told, lv, va) by {
                        lemma_va_index_bounds(va, lv);
                        lemma_same_suffix_step(va, page, lv);
                        if va_level_index(va, lv) == va_level_index(page, lv) {
                            assert(!same_suffix(va, page, lv - 1));
                        } else {
                            assert(tnew.entries@[va_level_index(va, lv)]
                                == told.entries@[va_level_index(va, lv)]);
                        }
                    }
                }
                r
            },
            _ => {
                proof {
                    assert(false);
                }
                Err(UnmapError::PageNotMapped)
            },
        }
    }
}

/// Map one 4 KiB virtual page onto one physical frame, allocating any
/// missing intermediate tables from the frame allocator. Afterwards the
/// page translates to exactly that frame; no other translation changes.
pub fn map_page_to_frame<A: FrameAllocator>(pt: &mut PageTables, frame_allocator: &mut A,
    page: u64, frame: u64, flags: u64) -> (r: Result<(), MapError>)
    requires
        old(pt).wf(),
        old(frame_allocator).inv(),
        page % 4096 == 0,
        frame % 4096 == 0,
    ensures
        final(pt).wf(),
        final(frame_allocator).inv(),
        r is Ok ==> final(pt).spec_translate(page) == Some(frame),
        r is Ok ==> forall|va: u64|
            #[trigger] same_suffix(va, page, 4) ==> final(pt).spec_translate(va) == Some((
                frame + (va & 0xfff)) as u64),
        r is Err ==> forall|va: u64|
            final(pt).spec_translate(va) == old(pt).spec_translate(va),
        forall|va: u64|
            !#[trigger] same_suffix(va, page, 4) ==> final(pt).spec_translate(va)
                == old(pt).spec_translate(va),
        (r == Err::<(), MapError>(MapError::ParentEntryHugePage)) == huge_on_path(
            old(pt).level_4_table, 4, page),
        (r == Err::<(), MapError>(MapError::PageAlreadyMapped)) == (!huge_on_path(
            old(pt).level_4_table, 4, page) && old(pt).spec_translate(page) is Some),
        r == Err::<(), MapError>(MapError::FrameAllocationFailed) ==> old(pt).spec_translate(
            page) is None,
        r is Ok ==> final(pt).spec_flags(page) == Some(flags),
        r is Ok ==> forall|va: u64|
            #[trigger] same_suffix(va, page, 4) ==> final(pt).spec_flags(va) == Some(flags),
        r is Err ==> forall|va: u64| final(pt).spec_flags(va) == old(pt).spec_flags(va),
        forall|va: u64|
            !#[trigger] same_suffix(va, page, 4) ==> final(pt).spec_flags(va)
                == old(pt).spec_flags(va),
        forall|va: u64|
            #![trigger final(pt).spec_translate(va)]
            old(pt).spec_translate(va) is Some ==> final(pt).spec_translate(va) is Some,
        forall|va: u64|
            #![trigger huge_on_path(final(pt).level_4_table, 4, va)]
            huge_on_path(final(pt).level_4_table, 4, va) == huge_on_path(
                old(pt).level_4_table, 4, va),
        tables_present_at(old(pt).level_4_table, 4, page) && !huge_on_path(
            old(pt).level_4_table, 4, page) && old(pt).spec_translate(page) is None
            ==> r is Ok,
        old(frame_allocator).frames_left() >= 3 && !huge_on_path(old(pt).level_4_table, 4,
            page) && old(pt).spec_translate(page) is None ==> r is Ok,
        final(frame_allocator).frames_left() >= old(frame_allocator).frames_left() - 3,
        forall|f: u64|
            old(frame_allocator).spec_issued(f) ==> final(frame_allocator).spec_issued(f),
        r == Err::<(), MapError>(MapError::FrameAllocationFailed) ==> final(
            frame_allocator).peek() is None,
{
    let r = map_at(&mut pt.level_4_table, 4, page, frame, flags, frame_allocator);
    proof {
        if r is Ok {
            assert(same_suffix(page, page, 4));
            assert(page % 0x1000u64 == 0 ==> page & 0xfffu64 == 0) by (bit_vector);
            assert(pt.spec_translate(page) == Some((frame + 0) as u64));
        }
        if r is Err {
            assert forall|va: u64|
                final(pt).spec_translate(va) == old(pt).spec_translate(va) by {
                if same_suffix(va, page, 4) {
                } else {
                }
            }
            assert forall|va: u64|
                final(pt).spec_flags(va) == old(pt).spec_flags(va) by {
                if same_suffix(va, page, 4) {
                } else {
                }
            }
        }
        assert forall|va: u64|
            #![trigger final(pt).spec_translate(va)]
            old(pt).spec_translate(va) is Some implies final(pt).spec_translate(
            va) is Some by {
            if same_suffix(va, page, 4) {
                if r is Ok {
                    assert(final(pt).spec_translate(va) == Some((frame + (va
                        & 0xfff)) as u64));
                }
            }
        }
    }
    r
}

/// Remove the 4 KiB mapping of a virtual page and hand the freed frame
/// back to the caller; the frame is not recycled automatically.
pub fn unmap_page(pt: &mut PageTables, page: u64) -> (r: Result<u64, UnmapError>)
    requires
        old(pt).wf(),
        page % 4096 == 0,
    ensures
        final(pt).wf(),
        r matches Ok(f) ==> old(pt).spec_translate(page) == Some(f) && f % 4096 == 0,
        r is Ok ==> final(pt).spec_translate(page) is None,
        r is Ok ==> forall|va: u64|
            #[trigger] same_suffix(va, page, 4) ==> final(pt).spec_translate(va) is None,
        r is Err ==> forall|va: u64|
            final(pt).spec_translate(va) == old(pt).spec_translate(va),
        forall|va: u64|
            !#[trigger] same_suffix(va, page, 4) ==> final(pt).spec_translate(va)
                == old(pt).spec_translate(va),
        (r == Err::<u64, UnmapError>(UnmapError::ParentEntryHugePage)) == huge_on_path(
            old(pt).level_4_table, 4, page),
        (r == Err::<u64, UnmapError>(UnmapError::PageNotMapped)) == (!huge_on_path(
            old(pt).level_4_table, 4, page) && old(pt).spec_translate(page) is None),
{
    let r = unmap_at(&mut pt.level_4_table, 4, page);
    proof {
        if r is Ok {
            assert(same_suffix(page, page, 4));
        }
        if r is Err {
            assert forall|va: u64|
                final(pt).spec_translate(va) == old(pt).spec_translate(va) by {
                if same_suffix(va, page, 4) {
                } else {
                }
            }
        }
    }
    r
}

/// The `j`-th page base of a range starting at `start`.
pub open spec fn page_at(start: u64, j: u64) -> u64 {
    (start + 4096 * j) as u64
}

/// Two distinct page bases in a range of fewer than 2^36 pages never
/// share all four index fields.
proof fn lemma_pages_distinct(start: u64, j: u64, k: u64)
    requires
        start % 4096 == 0,
        j < k,
        k < 0x10_0000_0000u64,
        start + 4096 * k <= u64::MAX,
    ensures
        !same_suffix(page_at(start, j), page_at(start, k), 4),
{
    let x = (start + 4096 * j) as u64;
    let y = (start + 4096 * k) as u64;
    assert(4096 * j < 4096 * k) by (nonlinear_arith)
        requires j < k;
    assert(x as int % 4096 == 0 && y as int % 4096 == 0) by (nonlinear_arith)
        requires
            start % 4096 == 0,
            x == start + 4096 * j,
            y == start + 4096 * k;
    assert(y - x < 0x1_0000_0000_0000u64) by (nonlinear_arith)
        requires
            j < k,
            k < 0x10_0000_0000u64,
            x == start as int + 4096 * j,
            y == start as int + 4096 * k;
    if same_suffix(x, y, 4) {
        assert(va_level_index(x, 1) == va_level_index(y, 1));
        assert(va_level_index(x, 2) == va_level_index(y, 2));
        assert(va_level_index(x, 3) == va_level_index(y, 3));
        assert(va_level_index(x, 4) == va_level_index(y, 4));
        assert(!((x >> 12u64) & 0x1ff == (y >> 12u64) & 0x1ff && (x >> 21u64) & 0x1ff == (y
            >> 21u64) & 0x1ff && (x >> 30u64) & 0x1ff == (y >> 30u64) & 0x1ff && (x
            >> 39u64) & 0x1ff == (y >> 39u64) & 0x1ff && x % 4096 == 0 && y % 4096 == 0 && x
            < y && y - x < 0x1_0000_0000_0000u64)) by (bit_vector);
        assert(false);
    }
}

/// Map a contiguous range of pages, each onto its own fresh frame from
/// the frame allocator, all with the same flags; existing mappings are
/// never removed, and mappings outside the range are untouched.
pub fn map_range<A: FrameAllocator>(pt: &mut PageTables, frame_allocator: &mut A,
    start_page: u64, page_count: u64, flags: u64) -> (r: Result<(), MapError>)
    requires
        old(pt).wf(),
        old(frame_allocator).inv(),
        start_page % 4096 == 0,
        page_count < 0x10_0000_0000u64,
        start_page + 4096 * page_count <= u64::MAX,
    ensures
        final(pt).wf(),
        final(frame_allocator).inv(),
        page_count == 0 ==> r is Ok,
        r is Ok ==> forall|j: u64|
            j < page_count ==> final(pt).spec_translate(#[trigger] page_at(start_page, j))
                is Some,
        r is Ok ==> forall|j: u64|
            j < page_count ==> final(pt).spec_flags(#[trigger] page_at(start_page, j))
                == Some(flags),
        // the frames of the range are pairwise distinct
        r is Ok ==> forall|j1: u64, j2: u64|
            #![trigger page_at(start_page, j1), page_at(start_page, j2)]
            j1 < page_count && j2 < page_count && j1 != j2 ==> final(pt).spec_translate(
                page_at(start_page, j1)) != final(pt).spec_translate(page_at(start_page,
                j2)),
        // no rollback: whatever was mapped stays mapped
        forall|va: u64|
            #![trigger final(pt).spec_translate(va)]
            old(pt).spec_translate(va) is Some ==> final(pt).spec_translate(va) is Some,
        forall|va: u64|
            #![trigger final(pt).spec_translate(va)]
            final(pt).spec_translate(va) != old(pt).spec_translate(va) ==> exists|j: u64|
                j < page_count && same_suffix(va, page_at(start_page, j), 4),
        r == Err::<(), MapError>(MapError::PageAlreadyMapped) ==> exists|j: u64|
            j < page_count && old(pt).spec_translate(#[trigger] page_at(start_page, j))
                is Some,
        r == Err::<(), MapError>(MapError::ParentEntryHugePage) ==> exists|j: u64|
            j < page_count && huge_on_path(old(pt).level_4_table, 4, #[trigger] page_at(
                start_page, j)),
        r == Err::<(), MapError>(MapError::FrameAllocationFailed) ==> final(
            frame_allocator).peek() is None,
        // success is owed when the range is free of mappings and huge
        // leaves and the allocator certainly has enough frames
        (forall|j: u64|
            j < page_count ==> old(pt).spec_translate(#[trigger] page_at(start_page, j))
                is None) && (forall|j: u64|
            j < page_count ==> !huge_on_path(old(pt).level_4_table, 4, #[trigger] page_at(
                start_page, j))) && old(frame_allocator).frames_left() >= 4 * page_count
            ==> r is Ok,
{
    let ghost pt0 = *old(pt);
    let ghost alloc_entry = *old(frame_allocator);
    let mut i: u64 = 0;
    while i < page_count
        invariant
            pt.wf(),
            frame_allocator.inv(),
            pt0 == *old(pt),
            alloc_entry == *old(frame_allocator),
            start_page % 4096 == 0,
            page_count < 0x10_0000_0000u64,
            start_page + 4096 * page_count <= u64::MAX,
            0 <= i <= page_count,
            forall|j: u64|
                j < i ==> pt.spec_translate(#[trigger] page_at(start_page, j)) is Some,
            forall|j: u64|
                j < i ==> pt.spec_flags(#[trigger] page_at(start_page, j)) == Some(flags),
            forall|j: u64|
                j < i ==> exists|f: u64|
                    pt.spec_translate(#[trigger] page_at(start_page, j)) == Some(f)
                        && frame_allocator.spec_issued(f),
            forall|j1: u64, j2: u64|
                #![trigger page_at(start_page, j1), page_at(start_page, j2)]
                j1 < i && j2 < i && j1 != j2 ==> pt.spec_translate(page_at(start_page, j1))
                    != pt.spec_translate(page_at(start_page, j2)),
            forall|va: u64|
                #![trigger pt.spec_translate(va)]
                pt0.spec_translate(va) is Some ==> pt.spec_translate(va) is Some,
            forall|va: u64|
                #![trigger pt.spec_translate(va)]
                pt.spec_translate(va) != pt0.spec_translate(va) ==> exists|j: u64|
                    j < i && same_suffix(va, page_at(start_page, j), 4),
            forall|va: u64|
                #![trigger huge_on_path(pt.level_4_table, 4, va)]
                huge_on_path(pt.level_4_table, 4, va) == huge_on_path(pt0.level_4_table, 4,
                    va),
            frame_allocator.frames_left() >= alloc_entry.frames_left() - 4 * i,
        decreases page_count - i,
    {
        proof {
            assert(4096 * i < 4096 * page_count) by (nonlinear_arith)
                requires i < page_count;
            assert((start_page + 4096 * i) as int % 4096 == 0) by (nonlinear_arith)
                requires start_page % 4096 == 0;
            assert(4 * i + 4 <= 4 * page_count) by (nonlinear_arith)
                requires i < page_count;
        }
        let page = start_page + 4096 * i;
        let ghost alloc_before = *frame_allocator;
        let frame = match frame_allocator.allocate_frame() {
            None => {
                proof {
                    // the owed-success antecedent cannot hold at this exit
                    if alloc_entry.frames_left() >= 4 * page_count {
                        assert(alloc_before.frames_left() > 0);
                        assert(false);
                    }
                }
                return Err(MapError::FrameAllocationFailed);
            },
            Some(f) => f,
        };
        let ghost pt_before = *pt;
        let ghost alloc_mid = *frame_allocator;
        let map_result = map_page_to_frame(pt, frame_allocator, page, frame, flags);
        proof {
            assert(page == page_at(start_page, i));
            assert forall|j: u64| j < i implies pt_before.spec_translate(#[trigger] page_at(
                start_page, j)) == pt0.spec_translate(page_at(start_page, j))
                || pt_before.spec_translate(page_at(start_page, j)) is Some by {
            }
            // earlier pages of the range never share this page's slots
            assert forall|j: u64| j < i implies !same_suffix(#[trigger] page_at(start_page,
                j), page, 4) by {
                lemma_pages_distinct(start_page, j, i);
            }
        }
        match map_result {
            Ok(()) => {},
            Err(e) => {
                proof {
                    // the failing page seen by the call still holds its
                    // pre-loop translation
                    if pt_before.spec_translate(page) != pt0.spec_translate(page) {
                        let j = choose|j: u64|
                            j < i && same_suffix(page, page_at(start_page, j), 4);
                        lemma_pages_distinct(start_page, j, i);
                        assert(false);
                    }
                    if e == MapError::PageAlreadyMapped {
                        assert(pt0.spec_translate(page_at(start_page, i)) is Some);
                    }
                    if e == MapError::ParentEntryHugePage {
                        assert(huge_on_path(pt_before.level_4_table, 4, page));
                        assert(huge_on_path(pt0.level_4_table, 4, page_at(start_page, i)));
                    }
                    // the owed-success antecedent cannot hold at this exit
                    if (forall|j: u64|
                        j < page_count ==> pt0.spec_translate(#[trigger] page_at(start_page,
                            j)) is None) && (forall|j: u64|
                        j < page_count ==> !huge_on_path(pt0.level_4_table, 4,
                            #[trigger] page_at(start_page, j)))
                        && alloc_entry.frames_left() >= 4 * page_count {
                        assert(alloc_mid.frames_left() >= 3);
                        assert(pt_before.spec_translate(page) is None);
                        assert(!huge_on_path(pt_before.level_4_table, 4, page));
                        assert(false);
                    }
                }
                return Err(e);
            },
        }
        proof {
            assert(same_suffix(page, page, 4));
            assert forall|j: u64| j < i + 1 implies pt.spec_translate(#[trigger] page_at(
                start_page, j)) is Some && pt.spec_flags(page_at(start_page, j)) == Some(
                flags) by {
                if j < i {
                    lemma_pages_distinct(start_page, j, i);
                    assert(4096 * j < 4096 * i) by (nonlinear_arith)
                        requires j < i;
                    assert(!same_suffix(page_at(start_page, j), page, 4));
                    assert(pt.spec_translate(page_at(start_page, j))
                        == pt_before.spec_translate(page_at(start_page, j)));
                    assert(pt.spec_flags(page_at(start_page, j))
                        == pt_before.spec_flags(page_at(start_page, j)));
                } else {
                    assert(pt.spec_translate(page) == Some(frame));
                }
            }
            // the new frame was never issued before, so it differs from
            // every frame already mapped in the range
            assert forall|j: u64| j < i + 1 implies exists|f: u64|
                pt.spec_translate(#[trigger] page_at(start_page, j)) == Some(f)
                    && frame_allocator.spec_issued(f) by {
                if j < i {
                    let f = choose|f: u64|
                        pt_before.spec_translate(page_at(start_page, j)) == Some(f)
                            && alloc_before.spec_issued(f);
                    assert(pt.spec_translate(page_at(start_page, j)) == Some(f));
                    assert(alloc_mid.spec_issued(f));
                    assert(frame_allocator.spec_issued(f));
                } else {
                    assert(pt.spec_translate(page) == Some(frame));
                    assert(alloc_mid.spec_issued(frame));
                    assert(frame_allocator.spec_issued(frame));
                }
            }
            assert forall|j1: u64, j2: u64|
                #![trigger page_at(start_page, j1), page_at(start_page, j2)]
                j1 < i + 1 && j2 < i + 1 && j1 != j2 implies pt.spec_translate(page_at(
                start_page, j1)) != pt.spec_translate(page_at(start_page, j2)) by {
                if j1 < i && j2 < i {
                    assert(pt.spec_translate(page_at(start_page, j1))
                        == pt_before.spec_translate(page_at(start_page, j1)));
                    assert(pt.spec_translate(page_at(start_page, j2))
                        == pt_before.spec_translate(page_at(start_page, j2)));
                } else {
                    let jo = if j1 == i { j2 } else { j1 };
                    assert(jo < i);
                    let f = choose|f: u64|
                        pt_before.spec_translate(page_at(start_page, jo)) == Some(f)
                            && alloc_before.spec_issued(f);
                    // the frame just allocated was not issued before
                    assert(!alloc_before.spec_issued(frame));
                    assert(f != frame);
                    assert(pt.spec_translate(page_at(start_page, jo)) == Some(f));
                    assert(pt.spec_translate(page_at(start_page, i)) == Some(frame));
                }
            }
            assert forall|va: u64|
                #![trigger pt.spec_translate(va)]
                pt.spec_translate(va) != pt0.spec_translate(va) implies exists|j: u64|
                j < i + 1 && same_suffix(va, page_at(start_page, j), 4) by {
                if same_suffix(va, page, 4) {
                    assert(i < i + 1 && same_suffix(va, page_at(start_page, i), 4));
                } else {
                    assert(pt.spec_translate(va) == pt_before.spec_translate(va));
                    assert(pt_before.spec_translate(va) != pt0.spec_translate(va));
                    let j = choose|j: u64|
                        j < i && same_suffix(va, page_at(start_page, j), 4);
                    assert(j < i + 1 && same_suffix(va, page_at(start_page, j), 4));
                }
            }
        }
        i = i + 1;
    }
    Ok(())
}

} // verus!
