//! The four-level page-table hierarchy: translating a virtual address by
//! walking it, and mapping a page by extending it.
//!
//! Page tables live in physical memory, seen here as 64-bit words by
//! physical address; a word that was never written reads as zero.
use vstd::prelude::*;
use std::collections::HashMap;
use crate::frame_alloc::{
    BootInfoFrameAllocator, MemoryRegionType, all_frames, in_usable_region, lemma_frames_inside_usable, FRAME_SIZE,
};

verus! {

broadcast use vstd::std_specs::hash::group_hash_axioms;

/// Entry flag: the entry is in use.
pub const PRESENT: u64 = 0x1;

/// Entry flag: writes are allowed through the entry.
pub const WRITABLE: u64 = 0x2;

/// Entry flag: the entry maps a large page instead of pointing to a table.
pub const HUGE_PAGE: u64 = 0x80;

/// Bits of an entry, and of a physical address, that hold a frame address.
pub const ADDR_MASK: u64 = 0x000f_ffff_ffff_f000;

/// Bits of a virtual address that give the offset inside its page.
pub const PAGE_OFFSET_MASK: u64 = 0xfff;

/// Bits of a shifted virtual address that give a table index.
pub const INDEX_MASK: u64 = 0x1ff;

/// Entry `e` is in use.
pub open spec fn is_present(e: u64) -> bool {
    e & PRESENT != 0
}

/// Entry `e` maps a large page.
pub open spec fn is_huge(e: u64) -> bool {
    e & HUGE_PAGE != 0
}

/// The frame address held in entry `e`.
pub open spec fn entry_frame(e: u64) -> u64 {
    e & ADDR_MASK
}

/// A physical frame address: frame aligned and within the physical
/// address width.
pub open spec fn is_frame_address(f: u64) -> bool {
    f & ADDR_MASK == f
}

/// Index into the table of the given level (4 is the top) that virtual
/// address `addr` selects: nine bits of the address for each level.
pub open spec fn table_index(addr: u64, level: int) -> u64 {
    if level == 4 {
        (addr >> 39u64) & INDEX_MASK
    } else if level == 3 {
        (addr >> 30u64) & INDEX_MASK
    } else if level == 2 {
        (addr >> 21u64) & INDEX_MASK
    } else {
        (addr >> 12u64) & INDEX_MASK
    }
}

/// Offset of virtual address `addr` inside its page.
pub open spec fn page_offset(addr: u64) -> u64 {
    addr & PAGE_OFFSET_MASK
}

/// Physical address of entry `index` of the table at frame `table`.
pub open spec fn entry_address(table: u64, index: u64) -> u64 {
    (table + 8 * index) as u64
}

/// The word at physical address `a`; zero where nothing was written.
pub open spec fn read_word(mem: Map<u64, u64>, a: u64) -> u64 {
    if mem.contains_key(a) {
        mem[a]
    } else {
        0
    }
}

/// Why a translation cannot be given.
#[derive(Debug, Clone, Copy, PartialEq, Eq, Structural)]
pub enum TranslateError {
    /// The walk met an entry that maps a large page, which is not supported.
    HugeFrame,
}

/// Why a mapping could not be made.
#[derive(Debug, Clone, Copy, PartialEq, Eq, Structural)]
pub enum MapToError {
    /// A table was missing and the allocator had no frame left for it.
    FrameAllocationFailed,
    /// An entry on the way to the page maps a large page.
    ParentEntryHugePage,
    /// The page is mapped already.
    PageAlreadyMapped,
}

/// The result of walking the tables from the table at frame `table` of the
/// given level down to the page of virtual address `addr`.
pub open spec fn walk(mem: Map<u64, u64>, table: u64, addr: u64, level: int) -> Result<
    Option<u64>,
    TranslateError,
>
    decreases level,
{
    if level <= 0 {
        Ok(Some((table + page_offset(addr)) as u64))
    } else {
        let e = read_word(mem, entry_address(table, table_index(addr, level)));
        if !is_present(e) {
            Ok(None)
        } else if is_huge(e) {
            Err(TranslateError::HugeFrame)
        } else {
            walk(mem, entry_frame(e), addr, level - 1)
        }
    }
}

/// The frames that `alloc` will hand out from now on, in order.
pub open spec fn upcoming(alloc: &BootInfoFrameAllocator) -> Seq<u64> {
    all_frames(alloc.regions()).skip(alloc.issued().len() as int)
}

/// First address past the physical address width.
pub const PHYS_ADDR_LIMIT: u64 = 0x0010_0000_0000_0000;

/// Over a memory map whose usable regions end within the physical address
/// width, every frame still to come from the allocator is a frame address.
pub proof fn lemma_upcoming_frame_addresses(alloc: &BootInfoFrameAllocator)
    requires
        alloc.wf(),
        forall|k: int|
            0 <= k < alloc.regions().len() && (#[trigger] alloc.regions()[k]).region_type
                == MemoryRegionType::Usable ==> alloc.regions()[k].end_addr <= PHYS_ADDR_LIMIT,
    ensures
        forall|i: int| 0 <= i < upcoming(alloc).len() ==> is_frame_address(#[trigger] upcoming(alloc)[i]),
{
    let all = all_frames(alloc.regions());
    alloc.lemma_issued_prefix();
    lemma_frames_inside_usable(alloc.regions());
    assert forall|i: int| 0 <= i < upcoming(alloc).len() implies is_frame_address(
        #[trigger] upcoming(alloc)[i],
    ) by {
        let n = alloc.issued().len() as int;
        let f = upcoming(alloc)[i];
        assert(f == all[n + i]);
        assert(in_usable_region(alloc.regions(), all[n + i]));
        let k = choose|k: int|
            0 <= k < alloc.regions().len() && (#[trigger] alloc.regions()[k]).region_type
                == MemoryRegionType::Usable && alloc.regions()[k].start_addr <= f && f + FRAME_SIZE
                <= alloc.regions()[k].end_addr;
        assert(f < 0x0010_0000_0000_0000u64);
        assert(f % 4096 == 0);
        assert(f % 4096 == 0 && f < 0x0010_0000_0000_0000u64 ==> f & 0x000f_ffff_ffff_f000u64 == f)
            by (bit_vector);
    }
}

proof fn lemma_index_bounds(addr: u64)
    ensures
        table_index(addr, 4) < 512,
        table_index(addr, 3) < 512,
        table_index(addr, 2) < 512,
        table_index(addr, 1) < 512,
        page_offset(addr) < 4096,
{
    assert((addr >> 39u64) & 0x1ffu64 < 512) by (bit_vector);
    assert((addr >> 30u64) & 0x1ffu64 < 512) by (bit_vector);
    assert((addr >> 21u64) & 0x1ffu64 < 512) by (bit_vector);
    assert((addr >> 12u64) & 0x1ffu64 < 512) by (bit_vector);
    assert(addr & 0xfffu64 < 4096) by (bit_vector);
}

proof fn lemma_frame_address_bounds(e: u64)
    ensures
        is_frame_address(entry_frame(e)),
        entry_frame(e) <= ADDR_MASK,
{
    assert((e & 0x000f_ffff_ffff_f000u64) & 0x000f_ffff_ffff_f000u64 == e & 0x000f_ffff_ffff_f000u64)
        by (bit_vector);
    assert(e & 0x000f_ffff_ffff_f000u64 <= 0x000f_ffff_ffff_f000u64) by (bit_vector);
}

/// Address `a` is one of the 512 words of the frame at `f`.
pub open spec fn frame_word(f: u64, a: u64) -> bool {
    f <= a < f + 4096 && (a - f) % 8 == 0
}

/// None of `frames` is the top-level table or is pointed to by a present
/// entry of `mem`, all are frame addresses, and no frame comes twice: a
/// new table may be put in each of them without touching a live one.
pub open spec fn frames_unused(mem: Map<u64, u64>, root: u64, frames: Seq<u64>) -> bool {
    &&& frames.no_duplicates()
    &&& forall|i: int| 0 <= i < frames.len() ==> is_frame_address(#[trigger] frames[i]) && frames[i] != root
    &&& forall|i: int, a: u64|
        0 <= i < frames.len() && mem.contains_key(a) && is_present(mem[a]) ==> entry_frame(
            #[trigger] mem[a],
        ) != #[trigger] frames[i]
}

proof fn lemma_frame_aligned(f: u64)
    requires
        is_frame_address(f),
    ensures
        f % 4096 == 0,
{
    assert(f & 0x000f_ffff_ffff_f000u64 == f ==> f % 4096 == 0) by (bit_vector);
}

/// The words of two different frames are different.
proof fn lemma_words_apart(f: u64, t: u64, i: u64)
    requires
        is_frame_address(f),
        is_frame_address(t),
        i < 512,
    ensures
        f != t ==> !frame_word(f, entry_address(t, i)),
{
    if f != t {
        lemma_words_disjoint(f, t, i);
    }
}

/// The words of two different frames are different.
proof fn lemma_words_disjoint(f: u64, t: u64, i: u64)
    requires
        is_frame_address(f),
        is_frame_address(t),
        f != t,
        i < 512,
    ensures
        !frame_word(f, entry_address(t, i)),
        t + 8 * i <= u64::MAX,
{
    lemma_frame_aligned(f);
    lemma_frame_aligned(t);
    lemma_frame_address_bounds(t);
    assert(t & 0x000f_ffff_ffff_f000u64 == t ==> t <= 0x000f_ffff_ffff_f000u64) by (bit_vector);
    let qf = f as int / 4096;
    let qt = t as int / 4096;
    assert(f == 4096 * qf);
    assert(t == 4096 * qt);
    if qf < qt {
        assert(4096 * qf + 4096 <= 4096 * qt) by (nonlinear_arith)
            requires
                qf < qt,
        ;
    } else if qt < qf {
        assert(4096 * qt + 4096 <= 4096 * qf) by (nonlinear_arith)
            requires
                qt < qf,
        ;
    }
}

proof fn lemma_new_entry(f: u64, flags: u64)
    requires
        is_frame_address(f),
        flags & ADDR_MASK == 0,
        flags & HUGE_PAGE == 0,
    ensures
        is_present(f | flags | PRESENT | WRITABLE),
        !is_huge(f | flags | PRESENT | WRITABLE),
        entry_frame(f | flags | PRESENT | WRITABLE) == f,
{
    assert(f & 0x000f_ffff_ffff_f000u64 == f && flags & 0x000f_ffff_ffff_f000u64 == 0 && flags & 0x80u64
        == 0 ==> {
        &&& (f | flags | 1u64 | 2u64) & 1u64 != 0
        &&& (f | flags | 1u64 | 2u64) & 0x80u64 == 0
        &&& (f | flags | 1u64 | 2u64) & 0x000f_ffff_ffff_f000u64 == f
    }) by (bit_vector);
}

/// Entry `i` of the table at frame `p` is one of that frame's words.
proof fn lemma_own_word(p: u64, i: u64)
    requires
        is_frame_address(p),
        i < 512,
    ensures
        frame_word(p, entry_address(p, i)),
        p + 8 * i <= u64::MAX,
{
    lemma_frame_address_bounds(p);
    assert(p & 0x000f_ffff_ffff_f000u64 == p ==> p <= 0x000f_ffff_ffff_f000u64) by (bit_vector);
    assert((8 * i) % 8 == 0) by (nonlinear_arith);
}

/// The frame that entry `table_index(page, level)` of the table at `table`
/// points to.
pub open spec fn next_table(mem: Map<u64, u64>, table: u64, page: u64, level: int) -> u64 {
    entry_frame(read_word(mem, entry_address(table, table_index(page, level))))
}

/// Address of the lowest-level entry for `page`, reached by following the
/// entries from the top-level table at `root`.
pub open spec fn leaf_address(mem: Map<u64, u64>, root: u64, page: u64) -> u64 {
    let t3 = next_table(mem, root, page, 4);
    let t2 = next_table(mem, t3, page, 3);
    let t1 = next_table(mem, t2, page, 2);
    entry_address(t1, table_index(page, 1))
}

/// How many tables below the top level are missing on the way to `page`:
/// each needs a new frame before the page can be mapped.
pub open spec fn missing_tables(mem: Map<u64, u64>, root: u64, page: u64) -> nat {
    let e4 = read_word(mem, entry_address(root, table_index(page, 4)));
    let e3 = read_word(mem, entry_address(entry_frame(e4), table_index(page, 3)));
    let e2 = read_word(mem, entry_address(entry_frame(e3), table_index(page, 2)));
    if !is_present(e4) {
        3
    } else if !is_present(e3) {
        2
    } else if !is_present(e2) {
        1
    } else {
        0
    }
}

/// The word at physical address `a` once `page` is mapped to `frame` with
/// `flags`, the missing tables being put in the frames `up` in order from
/// the top: the leaf entry holds the frame, each entry that was missing
/// points to its new table, the new tables are otherwise zero, and every
/// other word is as it was.
pub open spec fn mapped_word(
    old_mem: Map<u64, u64>,
    root: u64,
    page: u64,
    frame: u64,
    flags: u64,
    up: Seq<u64>,
    a: u64,
) -> u64 {
    let m = missing_tables(old_mem, root, page);
    let t3 = if m == 3 {
        up[0]
    } else {
        next_table(old_mem, root, page, 4)
    };
    let t2 = if m >= 2 {
        up[m - 2]
    } else {
        next_table(old_mem, t3, page, 3)
    };
    let t1 = if m >= 1 {
        up[m - 1]
    } else {
        next_table(old_mem, t2, page, 2)
    };
    if a == entry_address(t1, table_index(page, 1)) {
        frame | flags | PRESENT | WRITABLE
    } else if m >= 1 && a == entry_address(t2, table_index(page, 2)) {
        t1 | PRESENT | WRITABLE
    } else if m >= 2 && a == entry_address(t3, table_index(page, 3)) {
        t2 | PRESENT | WRITABLE
    } else if m == 3 && a == entry_address(root, table_index(page, 4)) {
        t3 | PRESENT | WRITABLE
    } else if (m >= 1 && frame_word(up[0], a)) || (m >= 2 && frame_word(up[1], a)) || (m == 3
        && frame_word(up[2], a)) {
        0
    } else {
        read_word(old_mem, a)
    }
}

/// What mapping `page` to `frame` leaves behind, given the memory and
/// frames handed out before and after, and the frames the allocator had
/// still to come.
pub open spec fn map_outcome(
    old_mem: Map<u64, u64>,
    new_mem: Map<u64, u64>,
    root: u64,
    old_issued: Seq<u64>,
    new_issued: Seq<u64>,
    up: Seq<u64>,
    page: u64,
    frame: u64,
    flags: u64,
    r: Result<(), MapToError>,
) -> bool {
    let fresh = frames_unused(old_mem, root, up);
    let needed = missing_tables(old_mem, root, page);
    &&& old_issued.is_prefix_of(new_issued)
    // No present entry is ever changed, apart from the words of the new
    // tables.
    &&& changes_confined(old_mem, new_mem, new_issued.subrange(old_issued.len() as int, new_issued.len() as int))
    // A mapped page is refused, and nothing changes.
    &&& walk(old_mem, root, page, 4) matches Ok(Some(_)) ==> {
        &&& r == Err::<(), MapToError>(MapToError::PageAlreadyMapped)
        &&& new_mem == old_mem
        &&& new_issued == old_issued
    }
    &&& r == Err::<(), MapToError>(MapToError::FrameAllocationFailed) ==> up.len() < 3
    // Given frames that no live table uses:
    &&& fresh ==> {
        // success is owed on an unmapped page when there are frames for the
        // missing tables;
        &&& walk(old_mem, root, page, 4) == Ok::<Option<u64>, TranslateError>(None) && up.len() >= needed
            ==> r is Ok
        // running out of frames leaves the page unmapped;
        &&& r == Err::<(), MapToError>(MapToError::FrameAllocationFailed) ==> {
            &&& up.len() < needed
            &&& walk(new_mem, root, page, 4) == Ok::<Option<u64>, TranslateError>(None)
        }
        // a large page on the way is the only other failure;
        &&& r == Err::<(), MapToError>(MapToError::ParentEntryHugePage) ==> walk(old_mem, root, page, 4)
            == Err::<Option<u64>, TranslateError>(TranslateError::HugeFrame)
        // a success takes one frame per missing table, in order, writes the
        // leaf entry, and the page then translates to the frame.
        &&& r is Ok ==> {
            &&& new_issued == old_issued + up.take(needed as int)
            &&& forall|a: u64| #[trigger] read_word(new_mem, a) == mapped_word(old_mem, root, page, frame, flags, up, a)
            &&& read_word(new_mem, leaf_address(new_mem, root, page)) == frame | flags | PRESENT | WRITABLE
            &&& flags & HUGE_PAGE == 0 ==> walk(new_mem, root, page, 4) == Ok::<Option<u64>, TranslateError>(
                Some(frame),
            )
        }
    }
}

/// Between `old_mem` and `new_mem` no present word was changed: every word
/// that differs was not present before, or is a word of one of `frames`.
pub open spec fn changes_confined(old_mem: Map<u64, u64>, new_mem: Map<u64, u64>, frames: Seq<u64>) -> bool {
    forall|a: u64|
        #[trigger] read_word(new_mem, a) != read_word(old_mem, a) ==> !is_present(read_word(old_mem, a)) || exists|
            j: int,
        |
            0 <= j < frames.len() && frame_word(#[trigger] frames[j], a)
}

proof fn lemma_confined_step(m0: Map<u64, u64>, m: Map<u64, u64>, m_new: Map<u64, u64>, frames: Seq<u64>, ea: u64, f: u64)
    requires
        changes_confined(m0, m, frames),
        !is_present(read_word(m, ea)),
        forall|a: u64| a != ea && !frame_word(f, a) ==> #[trigger] read_word(m_new, a) == read_word(m, a),
    ensures
        changes_confined(m0, m_new, frames.push(f)),
{
    let fs = frames.push(f);
    assert forall|a: u64| #[trigger] read_word(m_new, a) != read_word(m0, a) implies !is_present(read_word(m0, a))
        || exists|j: int| 0 <= j < fs.len() && frame_word(#[trigger] fs[j], a) by {
        if frame_word(f, a) {
            assert(fs[frames.len() as int] == f);
        } else if read_word(m, a) != read_word(m0, a) {
            if !is_present(read_word(m0, a)) {
            } else {
                let j = choose|j: int| 0 <= j < frames.len() && frame_word(#[trigger] frames[j], a);
                assert(fs[j] == frames[j]);
            }
        }
    }
}

proof fn lemma_confined_write(m0: Map<u64, u64>, m: Map<u64, u64>, m_new: Map<u64, u64>, frames: Seq<u64>, ea: u64)
    requires
        changes_confined(m0, m, frames),
        !is_present(read_word(m, ea)),
        forall|a: u64| a != ea ==> #[trigger] read_word(m_new, a) == read_word(m, a),
    ensures
        changes_confined(m0, m_new, frames),
{
    assert forall|a: u64| #[trigger] read_word(m_new, a) != read_word(m0, a) implies !is_present(read_word(m0, a))
        || exists|j: int| 0 <= j < frames.len() && frame_word(#[trigger] frames[j], a) by {
        if a != ea {
            assert(read_word(m_new, a) == read_word(m, a));
        }
    }
}

proof fn lemma_count_step(is0: Seq<u64>, up: Seq<u64>, n: int)
    requires
        0 <= n < up.len(),
    ensures
        (is0 + up.take(n)).push(up.skip(n)[0]) == is0 + up.take(n + 1),
        up.skip(n).drop_first() == up.skip(n + 1),
{
    assert((is0 + up.take(n)).push(up.skip(n)[0]) =~= is0 + up.take(n + 1));
    assert(up.skip(n).drop_first() =~= up.skip(n + 1));
}

/// The page tables of an address space: the frame of the top-level table
/// and the physical memory that holds the tables.
pub struct MappedPageTable {
    level_4_table: u64,
    memory: HashMap<u64, u64>,
}

impl MappedPageTable {
    /// Frame of the top-level table.
    pub closed spec fn root(&self) -> u64 {
        self.level_4_table
    }

    /// The physical memory, word by word.
    pub closed spec fn memory(&self) -> Map<u64, u64> {
        self.memory@
    }

    pub closed spec fn wf(&self) -> bool {
        is_frame_address(self.level_4_table)
    }

    /// Page tables rooted at `level_4_table` over an empty physical memory.
    pub fn new(level_4_table: u64) -> (r: MappedPageTable)
        requires
            is_frame_address(level_4_table),
        ensures
            r.wf(),
            r.root() == level_4_table,
            r.memory() == Map::<u64, u64>::empty(),
    {
        MappedPageTable { level_4_table, memory: HashMap::new() }
    }

    /// The word at physical address `a`.
    pub fn read(&self, a: u64) -> (r: u64)
        ensures
            r == read_word(self.memory(), a),
    {
        match self.memory.get(&a) {
            Some(v) => *v,
            None => 0,
        }
    }

    /// Writes `v` at physical address `a`.
    pub fn write(&mut self, a: u64, v: u64)
        ensures
            final(self).root() == old(self).root(),
            final(self).memory() == old(self).memory().insert(a, v),
    {
        self.memory.insert(a, v);
    }

    /// Fills the frame at `f` with zero words.
    fn zero_frame(&mut self, f: u64)
        requires
            is_frame_address(f),
        ensures
            final(self).root() == old(self).root(),
            forall|a: u64|
                #[trigger] read_word(final(self).memory(), a) == if frame_word(f, a) {
                    0
                } else {
                    read_word(old(self).memory(), a)
                },
            forall|a: u64|
                final(self).memory().contains_key(a) && is_present(final(self).memory()[a])
                    ==> old(self).memory().contains_key(a) && #[trigger] final(self).memory()[a]
                    == old(self).memory()[a],
    {
        proof {
            lemma_frame_address_bounds(f);
            assert(f & 0x000f_ffff_ffff_f000u64 == f ==> f <= 0x000f_ffff_ffff_f000u64) by (bit_vector);
        }
        let mut i: u64 = 0;
        while i < 512
            invariant
                i <= 512,
                f <= ADDR_MASK,
                self.root() == old(self).root(),
                forall|a: u64|
                    #[trigger] read_word(self.memory(), a) == if frame_word(f, a) && a < f + 8 * i {
                        0
                    } else {
                        read_word(old(self).memory(), a)
                    },
                forall|a: u64|
                    self.memory().contains_key(a) && is_present(self.memory()[a])
                        ==> old(self).memory().contains_key(a) && #[trigger] self.memory()[a]
                        == old(self).memory()[a],
            decreases 512 - i,
        {
            let ghost before = self.memory();
            self.write(f + 8 * i, 0);
            proof {
                assert(!is_present(0)) by (bit_vector);
                assert forall|a: u64|
                    #[trigger] read_word(self.memory(), a) == if frame_word(f, a) && a < f + 8 * (i + 1) {
                        0
                    } else {
                        read_word(old(self).memory(), a)
                    } by {
                    assert(read_word(self.memory(), a) == if a == f + 8 * i {
                        0
                    } else {
                        read_word(before, a)
                    });
                    if a == f + 8 * i {
                        assert((8 * i) % 8 == 0) by (nonlinear_arith);
                        assert(frame_word(f, a));
                    }
                    if frame_word(f, a) && a < f + 8 * (i + 1) && a != f + 8 * i {
                        let d = a - f;
                        assert(d < 8 * i) by (nonlinear_arith)
                            requires
                                d % 8 == 0,
                                0 <= d < 8 * (i + 1),
                                d != 8 * i,
                        ;
                    }
                }
            }
            i = i + 1;
        }
    }

    /// The table one level down from entry `index` of the table at `table`.
    /// Where the entry is not present, a frame of `alloc` becomes a new,
    /// empty table and the entry points to it.
    fn next_table_create(&mut self, table: u64, index: u64, alloc: &mut BootInfoFrameAllocator) -> (r:
        Result<u64, MapToError>)
        requires
            old(self).wf(),
            is_frame_address(table),
            index < 512,
            old(alloc).wf(),
            forall|i: int|
                0 <= i < upcoming(old(alloc)).len() ==> is_frame_address(#[trigger] upcoming(old(alloc))[i]),
        ensures
            final(self).wf(),
            final(self).root() == old(self).root(),
            final(alloc).wf(),
            final(alloc).regions() == old(alloc).regions(),
            forall|i: int|
                0 <= i < upcoming(final(alloc)).len() ==> is_frame_address(
                    #[trigger] upcoming(final(alloc))[i],
                ),
            ({
                let ea = entry_address(table, index);
                let e = read_word(old(self).memory(), ea);
                let up = upcoming(old(alloc));
                &&& is_present(e) ==> {
                    &&& final(self).memory() == old(self).memory()
                    &&& final(alloc).issued() == old(alloc).issued()
                    &&& r == if is_huge(e) {
                        Err::<u64, MapToError>(MapToError::ParentEntryHugePage)
                    } else {
                        Ok(entry_frame(e))
                    }
                }
                &&& !is_present(e) && up.len() == 0 ==> {
                    &&& final(self).memory() == old(self).memory()
                    &&& final(alloc).issued() == old(alloc).issued()
                    &&& r == Err::<u64, MapToError>(MapToError::FrameAllocationFailed)
                }
                &&& !is_present(e) && up.len() > 0 ==> {
                    &&& r == Ok::<u64, MapToError>(up[0])
                    &&& upcoming(final(alloc)) == up.drop_first()
                    &&& final(alloc).issued() == old(alloc).issued().push(up[0])
                    &&& forall|a: u64|
                        #[trigger] read_word(final(self).memory(), a) == if a == ea {
                            up[0] | PRESENT | WRITABLE
                        } else if frame_word(up[0], a) {
                            0
                        } else {
                            read_word(old(self).memory(), a)
                        }
                }
                &&& r matches Ok(t) ==> {
                    &&& is_frame_address(t)
                    &&& is_present(read_word(final(self).memory(), ea))
                    &&& !is_huge(read_word(final(self).memory(), ea))
                    &&& entry_frame(read_word(final(self).memory(), ea)) == t
                }
                &&& frames_unused(old(self).memory(), old(self).root(), up) ==> frames_unused(
                    final(self).memory(),
                    final(self).root(),
                    upcoming(final(alloc)),
                )
            }),
    {
        proof {
            lemma_frame_address_bounds(table);
            assert(table & 0x000f_ffff_ffff_f000u64 == table ==> table <= 0x000f_ffff_ffff_f000u64)
                by (bit_vector);
        }
        let ea = table + 8 * index;
        let e = self.read(ea);
        let ghost up = upcoming(alloc);
        proof {
            alloc.lemma_issued_prefix();
        }
        if e & PRESENT == 0 {
            let ghost m0 = self.memory();
            match alloc.allocate_frame() {
                None => {
                    proof {
                        assert(up.len() == 0);
                    }
                    Err(MapToError::FrameAllocationFailed)
                },
                Some(f) => {
                    proof {
                        assert(up[0] == f);
                        assert(upcoming(alloc) =~= up.drop_first());
                        assert forall|i: int|
                            0 <= i < upcoming(alloc).len() implies is_frame_address(
                            #[trigger] upcoming(alloc)[i],
                        ) by {
                            assert(upcoming(alloc)[i] == up[i + 1]);
                        }
                        assert(is_frame_address(up[0]));
                    }
                    self.zero_frame(f);
                    let ghost m1 = self.memory();
                    self.write(ea, f | PRESENT | WRITABLE);
                    proof {
                        assert(0u64 & 0x000f_ffff_ffff_f000u64 == 0 && 0u64 & 0x80u64 == 0) by (bit_vector);
                        lemma_new_entry(f, 0);
                        assert(f | 0 | PRESENT | WRITABLE == f | PRESENT | WRITABLE) by (bit_vector);
                        assert forall|a: u64|
                            #[trigger] read_word(self.memory(), a) == if a == ea {
                                up[0] | PRESENT | WRITABLE
                            } else if frame_word(up[0], a) {
                                0
                            } else {
                                read_word(m0, a)
                            } by {
                            if a != ea {
                                assert(read_word(self.memory(), a) == read_word(m1, a));
                                if frame_word(up[0], a) {
                                    assert(read_word(m1, a) == 0);
                                } else {
                                    assert(read_word(m1, a) == read_word(m0, a));
                                }
                            }
                        }
                        if frames_unused(m0, self.root(), up) {
                            let up2 = upcoming(alloc);
                            let m2 = self.memory();
                            assert forall|i: int, a: u64|
                                0 <= i < up2.len() && m2.contains_key(a) && is_present(m2[a]) implies entry_frame(
                                #[trigger] m2[a],
                            ) != #[trigger] up2[i] by {
                                assert(up2[i] == up[i + 1]);
                                if a == ea {
                                    assert(up[0] != up[i + 1]);
                                } else {
                                    assert(m1.contains_key(a) && m1[a] == m2[a]);
                                    assert(m0.contains_key(a) && m0[a] == m1[a]);
                                }
                            }
                            assert forall|i: int| 0 <= i < up2.len() implies is_frame_address(
                                #[trigger] up2[i],
                            ) && up2[i] != self.root() by {
                                assert(up2[i] == up[i + 1]);
                            }
                            assert(up2.no_duplicates()) by {
                                assert forall|i: int, j: int|
                                    0 <= i < up2.len() && 0 <= j < up2.len() && i != j implies up2[i]
                                    != up2[j] by {
                                    assert(up2[i] == up[i + 1]);
                                    assert(up2[j] == up[j + 1]);
                                }
                            }
                        }
                    }
                    Ok(f)
                },
            }
        } else if e & HUGE_PAGE != 0 {
            Err(MapToError::ParentEntryHugePage)
        } else {
            proof {
                lemma_frame_address_bounds(e);
            }
            Ok(e & ADDR_MASK)
        }
    }

    /// Maps the page that starts at virtual address `page` to the frame at
    /// `frame`, with the given flags and present and writable set. A table
    /// that is missing on the way is made in a frame of `frame_allocator`.
    /// A page that is mapped already is left as it is, with an error.
    #[verifier::rlimit(100)]
    pub fn map_to(&mut self, page: u64, frame: u64, flags: u64, frame_allocator: &mut BootInfoFrameAllocator) -> (r:
        Result<(), MapToError>)
        requires
            old(self).wf(),
            old(frame_allocator).wf(),
            page_offset(page) == 0,
            is_frame_address(frame),
            flags & ADDR_MASK == 0,
            forall|i: int|
                0 <= i < upcoming(old(frame_allocator)).len() ==> is_frame_address(
                    #[trigger] upcoming(old(frame_allocator))[i],
                ),
        ensures
            final(self).wf(),
            final(self).root() == old(self).root(),
            final(frame_allocator).wf(),
            final(frame_allocator).regions() == old(frame_allocator).regions(),
            map_outcome(
                old(self).memory(),
                final(self).memory(),
                old(self).root(),
                old(frame_allocator).issued(),
                final(frame_allocator).issued(),
                upcoming(old(frame_allocator)),
                page,
                frame,
                flags,
                r,
            ),
    {
        proof {
            lemma_index_bounds(page);
            reveal_with_fuel(walk, 5);
            assert(!is_present(0)) by (bit_vector);
        }
        let root = self.level_4_table;
        let i4 = (page >> 39u64) & INDEX_MASK;
        let i3 = (page >> 30u64) & INDEX_MASK;
        let i2 = (page >> 21u64) & INDEX_MASK;
        let i1 = (page >> 12u64) & INDEX_MASK;
        let ghost m0 = self.memory();
        let ghost up0 = upcoming(frame_allocator);
        let ghost is0 = frame_allocator.issued();
        let ghost fresh = frames_unused(m0, root, up0);
        let ghost needed = missing_tables(m0, root, page);
        let ghost ea4 = entry_address(root, i4);
        let ghost c4 = !is_present(read_word(m0, ea4));
        let ghost owed = walk(m0, root, page, 4) == Ok::<Option<u64>, TranslateError>(None) && fresh
            && up0.len() >= needed;
        proof {
            assert(is0 + up0.take(0) =~= is0);
            assert(up0.skip(0) =~= up0);
            assert(is0.subrange(is0.len() as int, is0.len() as int) =~= Seq::<u64>::empty());
        }
        let table3 = match self.next_table_create(root, i4, frame_allocator) {
            Ok(t) => t,
            Err(e) => {
                proof {
                    assert(is0.is_prefix_of(is0));
                }
                return Err(e);
            },
        };
        let ghost m1 = self.memory();
        let ghost up1 = upcoming(frame_allocator);
        let ghost is1 = frame_allocator.issued();
        let ghost n1: int = if c4 { 1 } else { 0 };
        let ghost ea3 = entry_address(table3, i3);
        proof {
            lemma_own_word(table3, i3);
            if c4 {
                lemma_count_step(is0, up0, 0);
                lemma_confined_step(m0, m0, m1, Seq::empty(), ea4, up0[0]);
                assert(Seq::<u64>::empty().push(up0[0]) =~= up0.take(1));
            } else {
                assert(up0.take(0) =~= Seq::<u64>::empty());
            }
            assert(changes_confined(m0, m1, up0.take(n1)));
            assert(is1 == is0 + up0.take(n1) && up1 == up0.skip(n1));
            if fresh {
                assert(frames_unused(m1, root, up1));
                if c4 {
                    lemma_words_disjoint(table3, root, i4);
                    assert(read_word(m1, ea3) == 0);
                } else {
                    assert(m1 == m0);
                    assert(table3 == next_table(m0, root, page, 4));
                    assert(walk(m0, root, page, 4) == walk(m0, table3, page, 3));
                }
            }
        }
        let ghost c3 = !is_present(read_word(m1, ea3));
        let table2 = match self.next_table_create(table3, i3, frame_allocator) {
            Ok(t) => t,
            Err(e) => {
                proof {
                    assert(is0.is_prefix_of(is1)) by {
                        assert(is1.subrange(0, is0.len() as int) =~= is0);
                    }
                    assert(is1.subrange(is0.len() as int, is1.len() as int) =~= up0.take(n1));
                    if fresh && e == MapToError::ParentEntryHugePage {
                        assert(m1 == m0);
                    }
                    if fresh && e == MapToError::FrameAllocationFailed {
                        assert(walk(m1, root, page, 4) == walk(m1, table3, page, 3));
                    }
                }
                return Err(e);
            },
        };
        let ghost m2 = self.memory();
        let ghost up2 = upcoming(frame_allocator);
        let ghost is2 = frame_allocator.issued();
        let ghost n2: int = n1 + if c3 { 1int } else { 0 };
        let ghost ea2 = entry_address(table2, i2);
        proof {
            lemma_own_word(table2, i2);
            if c3 {
                lemma_count_step(is0, up0, n1);
                lemma_confined_step(m0, m1, m2, up0.take(n1), ea3, up1[0]);
                assert(up0.take(n1).push(up1[0]) =~= up0.take(n2));
            }
            assert(changes_confined(m0, m2, up0.take(n2)));
            assert(is2 == is0 + up0.take(n2) && up2 == up0.skip(n2));
            if fresh {
                assert(frames_unused(m2, root, up2));
                if c3 {
                    assert(m1.contains_key(ea4) && is_present(m1[ea4]));
                    assert(table3 != table2);
                    lemma_words_disjoint(table2, table3, i3);
                    lemma_words_disjoint(table2, root, i4);
                    assert(read_word(m2, ea2) == 0);
                    assert(read_word(m2, ea4) == read_word(m1, ea4));
                } else {
                    assert(m2 == m1);
                }
                if !c4 && !c3 {
                    assert(m2 == m0);
                    assert(table2 == next_table(m0, table3, page, 3));
                    assert(walk(m0, root, page, 4) == walk(m0, table2, page, 2));
                }
            }
        }
        let ghost c2 = !is_present(read_word(m2, ea2));
        let table1 = match self.next_table_create(table2, i2, frame_allocator) {
            Ok(t) => t,
            Err(e) => {
                proof {
                    assert(is0.is_prefix_of(is2)) by {
                        assert(is2.subrange(0, is0.len() as int) =~= is0);
                    }
                    assert(is2.subrange(is0.len() as int, is2.len() as int) =~= up0.take(n2));
                    if fresh && e == MapToError::ParentEntryHugePage {
                        assert(m2 == m0);
                    }
                    if fresh && e == MapToError::FrameAllocationFailed {
                        assert(walk(m2, root, page, 4) == walk(m2, table3, page, 3));
                        assert(walk(m2, table3, page, 3) == walk(m2, table2, page, 2));
                    }
                }
                return Err(e);
            },
        };
        let ghost m3 = self.memory();
        let ghost up3 = upcoming(frame_allocator);
        let ghost is3 = frame_allocator.issued();
        let ghost n3: int = n2 + if c2 { 1int } else { 0 };
        proof {
            lemma_frame_address_bounds(table1);
            assert(table1 & 0x000f_ffff_ffff_f000u64 == table1 ==> table1 <= 0x000f_ffff_ffff_f000u64)
                by (bit_vector);
            if c2 {
                lemma_count_step(is0, up0, n2);
                lemma_confined_step(m0, m2, m3, up0.take(n2), ea2, up2[0]);
                assert(up0.take(n2).push(up2[0]) =~= up0.take(n3));
            }
            assert(changes_confined(m0, m3, up0.take(n3)));
            assert(is3 == is0 + up0.take(n3) && up3 == up0.skip(n3));
            assert(is3.subrange(is0.len() as int, is3.len() as int) =~= up0.take(n3));
            assert(is0.is_prefix_of(is3)) by {
                assert(is3.subrange(0, is0.len() as int) =~= is0);
            }
        }
        let ea1 = table1 + 8 * i1;
        proof {
            lemma_own_word(table1, i1);
            if fresh {
                assert(frames_unused(m3, root, up3));
                if c2 {
                    assert(m2.contains_key(ea3) && is_present(m2[ea3]));
                    assert(table2 != table1);
                    lemma_words_disjoint(table1, table2, i2);
                    lemma_words_disjoint(table1, table3, i3);
                    lemma_words_disjoint(table1, root, i4);
                    assert(m1.contains_key(ea4) && is_present(m1[ea4]));
                    assert(read_word(m3, ea1) == 0);
                } else {
                    assert(m3 == m2);
                }
                assert(read_word(m3, ea4) == read_word(m1, ea4));
                assert(read_word(m3, ea3) == read_word(m2, ea3));
                if !c4 && !c3 && !c2 {
                    assert(m3 == m0);
                    assert(table1 == next_table(m0, table2, page, 2));
                    assert(walk(m0, root, page, 4) == walk(m0, table1, page, 1));
                }
                // One table was made for each one that was missing.
                if c4 {
                    assert(c3 && c2);
                } else if c3 {
                    assert(m1 == m0);
                    assert(c2);
                }
                assert(n3 == needed);
            }
        }
        let e = self.read(ea1);
        if e & PRESENT != 0 {
            proof {
                if walk(m0, root, page, 4) matches Ok(Some(_)) {
                    assert(!c4);
                    assert(m1 == m0);
                    assert(!c3);
                    assert(!c2);
                    assert(is3 =~= is0);
                }
            }
            return Err(MapToError::PageAlreadyMapped);
        }
        self.write(ea1, frame | flags | PRESENT | WRITABLE);
        proof {
            lemma_confined_write(m0, m3, self.memory(), up0.take(n3), ea1);
            if fresh {
                assert(read_word(self.memory(), ea4) == read_word(m1, ea4));
                assert(read_word(self.memory(), ea3) == read_word(m2, ea3));
                assert(read_word(self.memory(), ea2) == read_word(m3, ea2));
                assert(next_table(self.memory(), root, page, 4) == table3);
                assert(next_table(self.memory(), table3, page, 3) == table2);
                assert(next_table(self.memory(), table2, page, 2) == table1);
                assert(leaf_address(self.memory(), root, page) == ea1);
                let m = needed;
                assert(c4 == (m == 3) && c3 == (m >= 2) && c2 == (m >= 1));
                assert(table3 == (if m == 3 {
                    up0[0]
                } else {
                    next_table(m0, root, page, 4)
                }));
                assert(table2 == (if m >= 2 {
                    up0[m - 2]
                } else {
                    next_table(m0, table3, page, 3)
                }));
                assert(table1 == (if m >= 1 {
                    up0[m - 1]
                } else {
                    next_table(m0, table2, page, 2)
                }));
                lemma_frame_address_bounds(read_word(m0, ea4));
                lemma_words_apart(table3, root, i4);
                lemma_words_apart(table2, root, i4);
                lemma_words_apart(table1, root, i4);
                lemma_words_apart(table2, table3, i3);
                lemma_words_apart(table1, table3, i3);
                lemma_words_apart(table1, table2, i2);
                assert(c3 ==> table2 != table3);
                assert(c2 ==> table1 != table2 && table1 != table3);
                assert(c4 ==> table3 != root);
                assert forall|a: u64| #[trigger] read_word(self.memory(), a) == mapped_word(
                    m0,
                    root,
                    page,
                    frame,
                    flags,
                    up0,
                    a,
                ) by {
                    let v1 = if c4 {
                        if a == ea4 {
                            table3 | PRESENT | WRITABLE
                        } else if frame_word(table3, a) {
                            0
                        } else {
                            read_word(m0, a)
                        }
                    } else {
                        read_word(m0, a)
                    };
                    assert(read_word(m1, a) == v1);
                    let v2 = if c3 {
                        if a == ea3 {
                            table2 | PRESENT | WRITABLE
                        } else if frame_word(table2, a) {
                            0
                        } else {
                            v1
                        }
                    } else {
                        v1
                    };
                    assert(read_word(m2, a) == v2);
                    let v3 = if c2 {
                        if a == ea2 {
                            table1 | PRESENT | WRITABLE
                        } else if frame_word(table1, a) {
                            0
                        } else {
                            v2
                        }
                    } else {
                        v2
                    };
                    assert(read_word(m3, a) == v3);
                    assert(((m >= 1 && frame_word(up0[0], a)) || (m >= 2 && frame_word(up0[1], a)) || (m == 3
                        && frame_word(up0[2], a))) == ((c4 && frame_word(table3, a)) || (c3 && frame_word(
                        table2,
                        a,
                    )) || (c2 && frame_word(table1, a))));
                }
                if flags & HUGE_PAGE == 0 {
                    lemma_new_entry(frame, flags);
                    assert(walk(self.memory(), root, page, 4) == walk(self.memory(), table3, page, 3));
                    assert(walk(self.memory(), table3, page, 3) == walk(self.memory(), table2, page, 2));
                    assert(walk(self.memory(), table2, page, 2) == walk(self.memory(), table1, page, 1));
                    assert(walk(self.memory(), table1, page, 1) == walk(self.memory(), frame, page, 0));
                    assert((frame + page_offset(page)) as u64 == frame);
                }
            }
        }
        Ok(())
    }
}

/// The physical address that virtual address `addr` maps to, or `None`
/// where an entry on the way is not present. Large pages are not supported:
/// a walk that meets one is left out.
pub fn translate_addr(addr: u64, page_table: &MappedPageTable) -> (r: Option<u64>)
    requires
        page_table.wf(),
        !(walk(page_table.memory(), page_table.root(), addr, 4) is Err),
    ensures
        Ok::<Option<u64>, TranslateError>(r) == walk(page_table.memory(), page_table.root(), addr, 4),
{
    let mut table = page_table.level_4_table;
    let mut level: u64 = 4;
    proof {
        lemma_index_bounds(addr);
    }
    while level > 0
        invariant
            level <= 4,
            is_frame_address(table),
            walk(page_table.memory(), page_table.root(), addr, 4) == walk(page_table.memory(), table, addr, level as int),
            !(walk(page_table.memory(), page_table.root(), addr, 4) is Err),
            table_index(addr, 4) < 512,
            table_index(addr, 3) < 512,
            table_index(addr, 2) < 512,
            table_index(addr, 1) < 512,
        decreases level,
    {
        let index = if level == 4 {
            (addr >> 39u64) & INDEX_MASK
        } else if level == 3 {
            (addr >> 30u64) & INDEX_MASK
        } else if level == 2 {
            (addr >> 21u64) & INDEX_MASK
        } else {
            (addr >> 12u64) & INDEX_MASK
        };
        proof {
            lemma_frame_address_bounds(table);
        }
        let e = page_table.read(table + 8 * index);
        if e & PRESENT == 0 {
            return None;
        }
        if e & HUGE_PAGE != 0 {
            proof {
                assert(walk(page_table.memory(), table, addr, level as int) is Err);
            }
            return None;
        }
        proof {
            lemma_frame_address_bounds(e);
        }
        table = e & ADDR_MASK;
        level = level - 1;
    }
    proof {
        lemma_frame_address_bounds(table);
        lemma_index_bounds(addr);
    }
    Some(table + (addr & PAGE_OFFSET_MASK))
}

/// Physical address of the text buffer.
pub const VGA_BUFFER_FRAME: u64 = 0xb8000;

/// Maps `page`, which must not be mapped yet, to the frame of the text
/// buffer, present and writable, taking one frame of `frame_allocator` for
/// each missing table. The frames must be unused and enough.
pub fn create_example_mapping(page: u64, mapper: &mut MappedPageTable, frame_allocator: &mut BootInfoFrameAllocator)
    requires
        old(mapper).wf(),
        old(frame_allocator).wf(),
        page_offset(page) == 0,
        forall|i: int|
            0 <= i < upcoming(old(frame_allocator)).len() ==> is_frame_address(
                #[trigger] upcoming(old(frame_allocator))[i],
            ),
        walk(old(mapper).memory(), old(mapper).root(), page, 4) == Ok::<Option<u64>, TranslateError>(None),
        frames_unused(old(mapper).memory(), old(mapper).root(), upcoming(old(frame_allocator))),
        upcoming(old(frame_allocator)).len() >= missing_tables(old(mapper).memory(), old(mapper).root(), page),
    ensures
        final(mapper).wf(),
        final(mapper).root() == old(mapper).root(),
        final(frame_allocator).wf(),
        final(frame_allocator).regions() == old(frame_allocator).regions(),
        final(frame_allocator).issued() == old(frame_allocator).issued() + upcoming(old(frame_allocator)).take(
            missing_tables(old(mapper).memory(), old(mapper).root(), page) as int,
        ),
        forall|a: u64|
            #[trigger] read_word(final(mapper).memory(), a) == mapped_word(
                old(mapper).memory(),
                old(mapper).root(),
                page,
                VGA_BUFFER_FRAME,
                PRESENT | WRITABLE,
                upcoming(old(frame_allocator)),
                a,
            ),
        walk(final(mapper).memory(), final(mapper).root(), page, 4) == Ok::<Option<u64>, TranslateError>(
            Some(VGA_BUFFER_FRAME),
        ),
{
    proof {
        assert(0xb8000u64 & 0x000f_ffff_ffff_f000u64 == 0xb8000u64) by (bit_vector);
        assert((1u64 | 2u64) & 0x000f_ffff_ffff_f000u64 == 0 && (1u64 | 2u64) & 0x80u64 == 0) by (bit_vector);
    }
    let r = mapper.map_to(page, VGA_BUFFER_FRAME, PRESENT | WRITABLE, frame_allocator);
    proof {
        assert(r is Ok);
    }
}

} // verus!
