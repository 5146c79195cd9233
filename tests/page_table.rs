use oxiv::page::{PageAllocator, PAGE_SIZE};
use oxiv::page_table::{EntryFlags, MapError, PageTable, PhysicalAddress, VirtualAddress};

const HEAP_START: usize = 0x8020_0000;

fn allocator(pages: usize) -> PageAllocator {
    let mut alloc = PageAllocator::new();
    alloc.init(HEAP_START, HEAP_START + pages * PAGE_SIZE);
    alloc
}

fn looked_up(table: &PageTable, v: usize) -> Option<(u64, usize)> {
    table.lookup(VirtualAddress(v)).map(|(p, f)| (p.as_u64(), f))
}

#[test]
fn entry_flag_bits() {
    assert_eq!(EntryFlags::Empty.value(), 0);
    assert_eq!(EntryFlags::Valid.value(), 1);
    assert_eq!(EntryFlags::Read.value(), 2);
    assert_eq!(EntryFlags::Write.value(), 4);
    assert_eq!(EntryFlags::Execute.value(), 8);
    assert_eq!(EntryFlags::User.value(), 16);
    assert_eq!(EntryFlags::Global.value(), 32);
    assert_eq!(EntryFlags::Accessed.value(), 64);
    assert_eq!(EntryFlags::Dirty.value(), 128);
}

#[test]
fn addresses_with_offset() {
    assert_eq!(VirtualAddress(0x1000).with_offset(0x234).0, 0x1234);
    assert_eq!(PhysicalAddress::new(0x2000).with_offset(0x10).as_u64(), 0x2010);
}

#[test]
fn fresh_table_maps_nothing() {
    let table = PageTable::new();
    assert_eq!(looked_up(&table, 0), None);
    assert_eq!(looked_up(&table, 0x8000_0000), None);
}

#[test]
fn map_then_lookup_gives_page_and_flags() {
    let mut alloc = allocator(16);
    let mut table = PageTable::new();
    let flags = EntryFlags::Read.value() | EntryFlags::Write.value();
    let r = table.map(&mut alloc, VirtualAddress(0x8040_0000), PhysicalAddress::new(0x8050_0000), flags);
    assert_eq!(r, Ok(()));
    assert_eq!(looked_up(&table, 0x8040_0000), Some((0x8050_0000, flags | 1)));
    assert_eq!(looked_up(&table, 0x8040_0abc), Some((0x8050_0000, flags | 1)));
    assert_eq!(looked_up(&table, 0x8040_1000), None);
}

#[test]
fn map_of_high_physical_page() {
    let mut alloc = allocator(4);
    let mut table = PageTable::new();
    let r = table.map(&mut alloc, VirtualAddress(0x1000), PhysicalAddress::new(0x3_ffff_f000), 0xFE);
    assert_eq!(r, Ok(()));
    assert_eq!(looked_up(&table, 0x1000), Some((0x3_ffff_f000, 0xFF)));
}

#[test]
fn second_map_in_region_reuses_level0_table() {
    let mut alloc = allocator(16);
    let mut table = PageTable::new();
    let flags = EntryFlags::Read.value();
    table.map(&mut alloc, VirtualAddress(0x8040_0000), PhysicalAddress::new(0x1000), flags).unwrap();
    table.map(&mut alloc, VirtualAddress(0x8040_1000), PhysicalAddress::new(0x2000), flags).unwrap();
    assert_eq!(alloc.alloc_pages(1), Ok(alloc.alloc_start() + PAGE_SIZE));
    table.map(&mut alloc, VirtualAddress(0x8080_0000), PhysicalAddress::new(0x3000), flags).unwrap();
    assert_eq!(alloc.alloc_pages(1), Ok(alloc.alloc_start() + 3 * PAGE_SIZE));
    assert_eq!(looked_up(&table, 0x8040_1000), Some((0x2000, 3)));
}

#[test]
fn remap_replaces_leaf() {
    let mut alloc = allocator(4);
    let mut table = PageTable::new();
    table.map(&mut alloc, VirtualAddress(0x5000), PhysicalAddress::new(0x1000), 2).unwrap();
    table.map(&mut alloc, VirtualAddress(0x5000), PhysicalAddress::new(0x9000), 8).unwrap();
    assert_eq!(looked_up(&table, 0x5000), Some((0x9000, 9)));
}

#[test]
fn map_without_free_page_fails() {
    let mut alloc = PageAllocator::new();
    let mut table = PageTable::new();
    let r = table.map(&mut alloc, VirtualAddress(0x5000), PhysicalAddress::new(0x1000), 2);
    assert_eq!(r, Err(oxiv::page::AllocError::Exhausted));
    assert_eq!(looked_up(&table, 0x5000), None);
}

#[test]
fn kernel_range_maps_rounded_up_pages() {
    let mut alloc = allocator(16);
    let mut table = PageTable::new();
    let flags = EntryFlags::Read.value() | EntryFlags::Execute.value();
    let r = table.map_kernel_range(&mut alloc, VirtualAddress(0x8000_0000), VirtualAddress(0x8000_2001), flags);
    assert_eq!(r, Ok(()));
    for page in 0..3usize {
        let v = 0x8000_0000 + page * PAGE_SIZE;
        assert_eq!(looked_up(&table, v), Some((v as u64, flags | 1)));
    }
    assert_eq!(looked_up(&table, 0x8000_3000), None);
    assert_eq!(looked_up(&table, 0x7fff_f000), None);
}

#[test]
fn kernel_range_of_exact_pages() {
    let mut alloc = allocator(16);
    let mut table = PageTable::new();
    let r = table.map_kernel_range(&mut alloc, VirtualAddress(0x8000_0000), VirtualAddress(0x8000_2000), 6);
    assert_eq!(r, Ok(()));
    assert_eq!(looked_up(&table, 0x8000_1000), Some((0x8000_1000, 7)));
    assert_eq!(looked_up(&table, 0x8000_2000), None);
}

#[test]
fn kernel_range_crossing_level1_regions() {
    let mut alloc = allocator(16);
    let mut table = PageTable::new();
    let r = table.map_kernel_range(&mut alloc, VirtualAddress(0x803f_f000), VirtualAddress(0x8040_1000), 6);
    assert_eq!(r, Ok(()));
    assert_eq!(looked_up(&table, 0x803f_f000), Some((0x803f_f000, 7)));
    assert_eq!(looked_up(&table, 0x8040_0000), Some((0x8040_0000, 7)));
    assert_eq!(alloc.alloc_pages(1), Ok(alloc.alloc_start() + 2 * PAGE_SIZE));
}

#[test]
fn kernel_range_empty() {
    let mut alloc = allocator(4);
    let mut table = PageTable::new();
    let r = table.map_kernel_range(&mut alloc, VirtualAddress(0x8000_0000), VirtualAddress(0x8000_0000), 6);
    assert_eq!(r, Ok(()));
    assert_eq!(looked_up(&table, 0x8000_0000), None);
}

#[test]
fn kernel_range_rejects_misaligned_start() {
    let mut alloc = allocator(4);
    let mut table = PageTable::new();
    let r = table.map_kernel_range(&mut alloc, VirtualAddress(0x8000_0010), VirtualAddress(0x8000_2000), 6);
    assert_eq!(r, Err(MapError::Misaligned));
    assert_eq!(looked_up(&table, 0x8000_1000), None);
    assert_eq!(alloc.alloc_pages(4), Ok(alloc.alloc_start()));
}

#[test]
fn unmap_returns_table_pages() {
    let mut alloc = allocator(4);
    let mut table = PageTable::new();
    table.map(&mut alloc, VirtualAddress(0x0000_1000), PhysicalAddress::new(0x1000), 2).unwrap();
    table.map(&mut alloc, VirtualAddress(0x0040_0000), PhysicalAddress::new(0x2000), 2).unwrap();
    assert_eq!(alloc.alloc_pages(3), Err(oxiv::page::AllocError::Exhausted));
    table.unmap(&mut alloc);
    assert_eq!(looked_up(&table, 0x1000), None);
    assert_eq!(looked_up(&table, 0x0040_0000), None);
    assert_eq!(alloc.alloc_pages(4), Ok(alloc.alloc_start()));
}

#[test]
fn print_entries_lists_valid_entries() {
    let mut alloc = allocator(4);
    let mut table = PageTable::new();
    table.map(&mut alloc, VirtualAddress(0x8040_2000), PhysicalAddress::new(0x9000), 6).unwrap();
    table.map(&mut alloc, VirtualAddress(0x8040_0000), PhysicalAddress::new(0x8000), 2).unwrap();
    let short = table.print_entries(false);
    assert_eq!(short.len(), 1);
    assert!(!short[0].nested);
    assert_eq!(short[0].index, 0x201);
    assert_eq!(short[0].phys, alloc.alloc_start() as u64);
    assert!(!short[0].leaf);
    let long = table.print_entries(true);
    assert_eq!(long.len(), 3);
    assert!(long[1].nested && long[2].nested);
    assert_eq!(long[1].index, 0);
    assert_eq!(long[1].phys, 0x8000);
    assert_eq!(long[1].value & 0x3ff, 3);
    assert_eq!(long[2].index, 2);
    assert_eq!(long[2].phys, 0x9000);
    assert!(long[2].leaf);
}

#[test]
fn kernel_range_stops_when_no_table_page_is_left() {
    let mut alloc = allocator(1);
    let mut table = PageTable::new();
    let r = table.map_kernel_range(&mut alloc, VirtualAddress(0x803f_f000), VirtualAddress(0x8040_1000), 6);
    assert_eq!(r, Err(MapError::Exhausted));
    assert_eq!(looked_up(&table, 0x803f_f000), Some((0x803f_f000, 7)));
    assert_eq!(looked_up(&table, 0x8040_0000), None);
}

#[test]
fn default_table_maps_nothing() {
    let table = PageTable::default();
    assert_eq!(looked_up(&table, 0x1234_5000), None);
    assert!(table.print_entries(true).is_empty());
}

#[test]
fn kernel_range_in_mapped_region_takes_no_page() {
    let mut alloc = allocator(1);
    let mut table = PageTable::new();
    table.map(&mut alloc, VirtualAddress(0x8000_0000), PhysicalAddress::new(0x8000_0000), 6).unwrap();
    let r = table.map_kernel_range(&mut alloc, VirtualAddress(0x8000_1000), VirtualAddress(0x8000_4000), 6);
    assert_eq!(r, Ok(()));
    assert_eq!(looked_up(&table, 0x8000_3000), Some((0x8000_3000, 7)));
}
