use rvkernel::mm::{Bitmap, FrameAllocator, MMError, Range, UsableRanges};
use rvkernel::paging::{
    classify_page_table_entry, is_canonical, map_virtual_to_physical, page_table_entry_to_physical_address,
    page_table_index, physical_address_to_page_table_entry, read_page_table_entry, write_page_table_entry,
    PageTableEntryKind, PageTableMemory, PagingError, ACCESSED, DIRTY, EXECUTE, PRESENT, READ, WRITE,
};

const ROOT: usize = 0x1000;
const POOL: usize = 0x10_0000;

/// An allocator over `frames` free frames from `POOL` on.
fn allocator(frames: usize) -> FrameAllocator {
    FrameAllocator {
        usable: UsableRanges { ranges: vec![Range { start: POOL, end: POOL + frames * 4096 }] },
        bitmap: Bitmap { base: POOL, words: vec![0u64], frames },
        bitmap_pa: 0x2000,
    }
}

#[test]
fn entry_classification() {
    assert_eq!(classify_page_table_entry(0), PageTableEntryKind::NotPresent);
    assert_eq!(classify_page_table_entry(READ | WRITE), PageTableEntryKind::NotPresent);
    assert_eq!(classify_page_table_entry(PRESENT), PageTableEntryKind::NextTablePointer);
    assert_eq!(classify_page_table_entry(PRESENT | ACCESSED | DIRTY), PageTableEntryKind::NextTablePointer);
    assert_eq!(classify_page_table_entry(PRESENT | READ), PageTableEntryKind::Leaf);
    assert_eq!(classify_page_table_entry(PRESENT | EXECUTE), PageTableEntryKind::Leaf);
    assert_eq!(classify_page_table_entry(PRESENT | READ | WRITE), PageTableEntryKind::Leaf);
    assert_eq!(classify_page_table_entry(PRESENT | WRITE), PageTableEntryKind::ReservedWritableWithoutRead);
    assert_eq!(classify_page_table_entry(PRESENT | WRITE | EXECUTE), PageTableEntryKind::ReservedWritableWithoutRead);
}

#[test]
fn indices_per_level() {
    let va = (3 << 30) | (5 << 21) | (7 << 12) | 0x123;
    assert_eq!(page_table_index(va, 2), 3);
    assert_eq!(page_table_index(va, 1), 5);
    assert_eq!(page_table_index(va, 0), 7);
    assert_eq!(page_table_index(usize::MAX, 2), 511);
    assert_eq!(page_table_index(0xfff, 0), 0);
}

#[test]
fn canonical_addresses() {
    assert!(is_canonical(0));
    assert!(is_canonical(0x3f_ffff_ffff));
    assert!(!is_canonical(0x40_0000_0000));
    assert!(!is_canonical(0x8000_0000_0000_0000));
    assert!(!is_canonical(0xffff_ffbf_ffff_ffff));
    assert!(is_canonical(0xffff_ffc0_0000_0000));
    assert!(is_canonical(usize::MAX));
}

#[test]
fn entry_and_address_conversions() {
    assert_eq!(physical_address_to_page_table_entry(0x8000_0000), 0x2000_0000);
    assert_eq!(physical_address_to_page_table_entry(0x8000_0fff), 0x2000_0000);
    assert_eq!(page_table_entry_to_physical_address(0x2000_00c7), 0x8000_0000);
    assert_eq!(page_table_entry_to_physical_address(0xffc0_0000_0000_0000), 0);
    let pa = 0x1234_5678_9000usize;
    assert_eq!(page_table_entry_to_physical_address(physical_address_to_page_table_entry(pa) | 0x3ff), pa);
}

#[test]
fn entries_read_back_what_was_written() {
    let mut mem = PageTableMemory::new(ROOT);
    assert_eq!(read_page_table_entry(&mem, ROOT, 7), 0);
    write_page_table_entry(&mut mem, ROOT, 7, 0xabc1);
    assert_eq!(read_page_table_entry(&mem, ROOT, 7), 0xabc1);
    assert_eq!(read_page_table_entry(&mem, ROOT, 6), 0);
    mem.zero_table(0x5000);
    assert_eq!(read_page_table_entry(&mem, ROOT, 7), 0xabc1);
    assert_eq!(read_page_table_entry(&mem, 0x5000, 7), 0);
    mem.zero_table(ROOT);
    assert_eq!(read_page_table_entry(&mem, ROOT, 7), 0);
}

#[test]
fn mapping_builds_the_walk() {
    let mut mem = PageTableMemory::new(ROOT);
    let mut alloc = allocator(8);
    let va = 0x4000_1000;
    let pa = 0x8000_0000;
    assert_eq!(map_virtual_to_physical(&mut mem, &mut alloc, ROOT, va, pa, READ | WRITE), Ok(()));
    // The two missing tables came from the pool, lowest frame first.
    let l1 = POOL;
    let l0 = POOL + 0x1000;
    assert_eq!(read_page_table_entry(&mem, ROOT, 1), ((l1 as u64 >> 12) << 10) | PRESENT);
    assert_eq!(read_page_table_entry(&mem, l1, 0), ((l0 as u64 >> 12) << 10) | PRESENT);
    let leaf = read_page_table_entry(&mem, l0, 1);
    assert_eq!(leaf, 0x2000_0000 | READ | WRITE | PRESENT | ACCESSED | DIRTY);
    assert_eq!(page_table_entry_to_physical_address(leaf), pa);
    assert_eq!(alloc.alloc_frame(), Ok(POOL + 0x2000));
}

#[test]
fn mapping_reuses_tables_and_refuses_remaps() {
    let mut mem = PageTableMemory::new(ROOT);
    let mut alloc = allocator(8);
    assert_eq!(map_virtual_to_physical(&mut mem, &mut alloc, ROOT, 0x4000_1000, 0x8000_0000, READ), Ok(()));
    assert_eq!(map_virtual_to_physical(&mut mem, &mut alloc, ROOT, 0x4000_2000, 0x8000_1000, READ | EXECUTE), Ok(()));
    assert_eq!(read_page_table_entry(&mem, POOL + 0x1000, 2), 0x2000_0400 | READ | EXECUTE | PRESENT | ACCESSED | DIRTY);
    // No table was needed for the second page.
    assert_eq!(alloc.alloc_frame(), Ok(POOL + 0x2000));
    assert_eq!(
        map_virtual_to_physical(&mut mem, &mut alloc, ROOT, 0x4000_1000, 0x9000_0000, READ),
        Err(PagingError::AlreadyMapped)
    );
    // The first mapping stands.
    assert_eq!(read_page_table_entry(&mem, POOL + 0x1000, 1), 0x2000_0000 | READ | PRESENT | ACCESSED | DIRTY);
}

#[test]
fn a_leaf_on_the_walk_blocks_the_mapping() {
    let mut mem = PageTableMemory::new(ROOT);
    let mut alloc = allocator(8);
    write_page_table_entry(&mut mem, ROOT, 0, PRESENT | READ);
    assert_eq!(
        map_virtual_to_physical(&mut mem, &mut alloc, ROOT, 0x1000, 0x2000, READ),
        Err(PagingError::AlreadyMapped)
    );
    assert_eq!(alloc.alloc_frame(), Ok(POOL));
}

#[test]
fn invalid_addresses() {
    let mut mem = PageTableMemory::new(ROOT);
    let mut alloc = allocator(8);
    let cases = [
        (0x4000_1001, 0x8000_0000),
        (0x4000_1000, 0x8000_0800),
        (0x40_0000_0000, 0x8000_0000),
        (0x4000_1000, 1usize << 56),
    ];
    for (va, pa) in cases {
        assert_eq!(map_virtual_to_physical(&mut mem, &mut alloc, ROOT, va, pa, READ), Err(PagingError::InvalidAddress));
    }
    assert_eq!(read_page_table_entry(&mem, ROOT, 1), 0);
    assert_eq!(alloc.alloc_frame(), Ok(POOL));
}

#[test]
fn running_out_of_frames() {
    let mut mem = PageTableMemory::new(ROOT);
    let mut none = allocator(0);
    assert_eq!(
        map_virtual_to_physical(&mut mem, &mut none, ROOT, 0x1000, 0x2000, READ),
        Err(PagingError::OutOfFrames)
    );
    assert_eq!(read_page_table_entry(&mem, ROOT, 0), 0);

    let mut one = allocator(1);
    assert_eq!(
        map_virtual_to_physical(&mut mem, &mut one, ROOT, 0x1000, 0x2000, READ),
        Err(PagingError::OutOfFrames)
    );
    assert_eq!(one.alloc_frame(), Err(MMError::AllocFrameError));
}

#[test]
fn mapping_touches_only_its_walk() {
    let mut mem = PageTableMemory::new(ROOT);
    let mut alloc = allocator(8);
    write_page_table_entry(&mut mem, ROOT, 7, 0x1234_0001);
    assert_eq!(map_virtual_to_physical(&mut mem, &mut alloc, ROOT, 0x4000_1000, 0x8000_0000, 0), Ok(()));
    // With no R, W or X the entry is still written as asked: V, A and D only.
    assert_eq!(read_page_table_entry(&mem, POOL + 0x1000, 1), 0x2000_0000 | PRESENT | ACCESSED | DIRTY);
    for j in 0..512 {
        if j != 1 && j != 7 {
            assert_eq!(read_page_table_entry(&mem, ROOT, j), 0);
        }
        if j != 0 {
            assert_eq!(read_page_table_entry(&mem, POOL, j), 0);
        }
        if j != 1 {
            assert_eq!(read_page_table_entry(&mem, POOL + 0x1000, j), 0);
        }
    }
    assert_eq!(read_page_table_entry(&mem, ROOT, 7), 0x1234_0001);
}

#[test]
fn out_of_frames_leaves_only_the_root_table_added() {
    let mut mem = PageTableMemory::new(ROOT);
    let mut one = allocator(1);
    assert_eq!(
        map_virtual_to_physical(&mut mem, &mut one, ROOT, 0x4000_1000, 0x2000, READ),
        Err(PagingError::OutOfFrames)
    );
    assert_eq!(read_page_table_entry(&mem, ROOT, 1), ((POOL as u64 >> 12) << 10) | PRESENT);
    for j in 0..512 {
        assert_eq!(read_page_table_entry(&mem, POOL, j), 0);
    }
}
