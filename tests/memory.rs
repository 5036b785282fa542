use kernel_core::frame_alloc::{init_frame_allocator, MemoryRegion, MemoryRegionType};
use kernel_core::paging::{
    create_example_mapping, translate_addr, MapToError, MappedPageTable, HUGE_PAGE, PRESENT, WRITABLE,
};

fn region(start: u64, end: u64, usable: bool) -> MemoryRegion {
    MemoryRegion {
        start_addr: start,
        end_addr: end,
        region_type: if usable { MemoryRegionType::Usable } else { MemoryRegionType::Reserved },
    }
}

fn example_map() -> Vec<MemoryRegion> {
    vec![region(0x0, 0x4000, true), region(0x4000, 0x5000, false), region(0x5000, 0x9000, true)]
}

#[test]
fn allocates_usable_frames_in_order() {
    let mut a = init_frame_allocator(example_map());
    let got: Vec<Option<u64>> = (0..5).map(|_| a.allocate_frame()).collect();
    assert_eq!(got, vec![Some(0x0), Some(0x1000), Some(0x2000), Some(0x3000), Some(0x5000)]);
}

#[test]
fn allocator_runs_dry() {
    let mut a = init_frame_allocator(example_map());
    let mut seen = Vec::new();
    while let Some(f) = a.allocate_frame() {
        assert!(!seen.contains(&f));
        assert!(f < 0x4000 || (0x5000..0x9000).contains(&f));
        seen.push(f);
    }
    assert_eq!(seen.len(), 8);
    assert_eq!(a.allocate_frame(), None);
    assert_eq!(a.allocate_frame(), None);
}

#[test]
fn empty_map_gives_nothing() {
    let mut a = init_frame_allocator(Vec::new());
    assert_eq!(a.allocate_frame(), None);
    let mut b = init_frame_allocator(vec![region(0x1000, 0x3000, false)]);
    assert_eq!(b.allocate_frame(), None);
}

#[test]
fn partial_last_frame_is_skipped() {
    let mut a = init_frame_allocator(vec![region(0x2000, 0x3800, true)]);
    assert_eq!(a.allocate_frame(), Some(0x2000));
    assert_eq!(a.allocate_frame(), None);
}

#[test]
fn unaligned_region_start_is_rounded_up() {
    let mut a = init_frame_allocator(vec![region(0x1800, 0x4000, true), region(0x4100, 0x5000, true)]);
    assert_eq!(a.allocate_frame(), Some(0x2000));
    assert_eq!(a.allocate_frame(), Some(0x3000));
    assert_eq!(a.allocate_frame(), None);
}

const ROOT: u64 = 0x10_0000;

#[test]
fn map_then_translate_round_trip() {
    let mut pt = MappedPageTable::new(ROOT);
    let mut a = init_frame_allocator(example_map());
    let page = 0xdead_b000u64;
    assert_eq!(translate_addr(page, &pt), None);
    assert_eq!(pt.map_to(page, 0xb8000, PRESENT | WRITABLE, &mut a), Ok(()));
    assert_eq!(translate_addr(page, &pt), Some(0xb8000));
    assert_eq!(translate_addr(0xdead_beef, &pt), Some(0xb8eef));
    // Three intermediate tables were taken from the allocator.
    assert_eq!(a.allocate_frame(), Some(0x3000));
}

#[test]
fn second_mapping_of_a_page_fails() {
    let mut pt = MappedPageTable::new(ROOT);
    let mut a = init_frame_allocator(example_map());
    assert_eq!(pt.map_to(0x4000_0000, 0xb8000, PRESENT | WRITABLE, &mut a), Ok(()));
    assert_eq!(pt.map_to(0x4000_0000, 0xc0000, PRESENT | WRITABLE, &mut a), Err(MapToError::PageAlreadyMapped));
    assert_eq!(translate_addr(0x4000_0000, &pt), Some(0xb8000));
    // A neighbouring page shares every table and needs no new frame.
    assert_eq!(pt.map_to(0x4000_1000, 0xc0000, PRESENT | WRITABLE, &mut a), Ok(()));
    assert_eq!(translate_addr(0x4000_1010, &pt), Some(0xc0010));
    assert_eq!(a.allocate_frame(), Some(0x3000));
}

#[test]
fn mapping_without_frames_fails() {
    let mut pt = MappedPageTable::new(ROOT);
    let mut a = init_frame_allocator(vec![region(0x0, 0x2000, true)]);
    assert_eq!(pt.map_to(0x1000, 0xb8000, PRESENT, &mut a), Err(MapToError::FrameAllocationFailed));
}

#[test]
fn failing_translation_is_repeatable() {
    let pt = MappedPageTable::new(ROOT);
    assert_eq!(translate_addr(0xb8000, &pt), None);
    assert_eq!(translate_addr(0xb8000, &pt), None);
    assert_eq!(translate_addr(0xffff_ffff_ffff_ffff, &pt), None);
}

#[test]
fn huge_page_entries_are_reported() {
    let mut pt = MappedPageTable::new(ROOT);
    let mut a = init_frame_allocator(example_map());
    // Level-4 entry 0 points to a level-3 table whose entry 1 maps a 1 GiB page.
    pt.write(ROOT, 0x20_0000 | PRESENT | WRITABLE);
    pt.write(0x20_0000 + 8, 0x4000_0000 | PRESENT | WRITABLE | HUGE_PAGE);
    assert_eq!(pt.map_to(0x4000_1000, 0xb8000, PRESENT, &mut a), Err(MapToError::ParentEntryHugePage));
    assert_eq!(pt.read(0x20_0000 + 8), 0x4000_0000 | PRESENT | WRITABLE | HUGE_PAGE);
}

#[test]
fn example_mapping_points_at_text_buffer() {
    let mut pt = MappedPageTable::new(ROOT);
    let mut a = init_frame_allocator(example_map());
    let page = 0xdeadbeef & !0xfff;
    create_example_mapping(page, &mut pt, &mut a);
    assert_eq!(translate_addr(0xdeadbeef, &pt), Some(0xb8eef));
    // Three new tables: level 3 at 0x0, level 2 at 0x1000, level 1 at 0x2000.
    assert_eq!(pt.read(0x2000 + 8 * 0xdb), 0xb8000 | PRESENT | WRITABLE);
    assert_eq!(a.allocate_frame(), Some(0x3000));
    assert_eq!(pt.map_to(page, 0xc0000, PRESENT | WRITABLE, &mut a), Err(MapToError::PageAlreadyMapped));
}

#[test]
fn mapping_takes_one_frame_per_missing_table() {
    let mut pt = MappedPageTable::new(ROOT);
    let mut a = init_frame_allocator(example_map());
    // First page: three tables missing.
    assert_eq!(pt.map_to(0x4000_0000, 0xb8000, PRESENT | WRITABLE, &mut a), Ok(()));
    // Same level-3 table, another entry of it: two tables missing.
    assert_eq!(pt.map_to(0x8020_0000, 0xc0000, PRESENT | WRITABLE, &mut a), Ok(()));
    // Same level-2 table as the second page, another entry of it: one table missing.
    assert_eq!(pt.map_to(0x8040_0000, 0xc1000, PRESENT | WRITABLE, &mut a), Ok(()));
    // Three, two and one frames were taken: six in all.
    assert_eq!(a.allocate_frame(), Some(0x7000));
}

#[test]
fn leaf_entry_holds_frame_and_flags() {
    let mut pt = MappedPageTable::new(ROOT);
    let mut a = init_frame_allocator(example_map());
    assert_eq!(pt.map_to(0x1000, 0xb8000, 0, &mut a), Ok(()));
    // Tables at 0x0 (level 3), 0x1000 (level 2), 0x2000 (level 1); entry 1 of the last.
    assert_eq!(pt.read(0x2000 + 8), 0xb8000 | PRESENT | WRITABLE);
    assert_eq!(pt.read(ROOT), 0x0 | PRESENT | WRITABLE);
}

#[test]
fn running_out_of_frames_leaves_page_unmapped() {
    let mut pt = MappedPageTable::new(ROOT);
    let mut a = init_frame_allocator(vec![region(0x0, 0x2000, true)]);
    assert_eq!(pt.map_to(0x1000, 0xb8000, PRESENT, &mut a), Err(MapToError::FrameAllocationFailed));
    assert_eq!(translate_addr(0x1000, &pt), None);
    assert_eq!(a.allocate_frame(), None);
}
