use oxiv::arch::{stvec_value, Satp, StvecMode};
use oxiv::boot::{init_memory, BootInfo, CODE_FLAGS, DATA_FLAGS};
use oxiv::page::{PageAllocator, PAGE_SIZE};
use oxiv::page_table::{MapError, PageTable, VirtualAddress};

fn boot_info() -> BootInfo {
    BootInfo {
        text_start: 0x8020_0000,
        text_end: 0x8020_2345,
        rodata_start: 0x8020_3000,
        rodata_end: 0x8020_3800,
        data_start: 0x8020_4000,
        data_end: 0x8020_5000,
        bss_start: 0x8020_5000,
        bss_end: 0x8020_6010,
        stack_start: 0x8020_7000,
        stack_end: 0x8020_9000,
        heap_start: 0x8020_9000,
        heap_end: 0x8020_9000 + 32 * PAGE_SIZE,
    }
}

fn looked_up(table: &PageTable, v: usize) -> Option<(u64, usize)> {
    table.lookup(VirtualAddress(v)).map(|(p, f)| (p.as_u64(), f))
}

#[test]
fn satp_encodes_enable_bit_and_root_frame() {
    assert_eq!(Satp::new(0x8020_1000).get(), 0x8008_0201);
    assert_eq!(Satp::new(0).get(), 0x8000_0000);
}

#[test]
fn stvec_direct_mode_keeps_address() {
    assert_eq!(StvecMode::Direct.value(), 0);
    assert_eq!(stvec_value(0x8020_0040, StvecMode::Direct), 0x8020_0040);
}

#[test]
fn init_memory_maps_every_segment() {
    let b = boot_info();
    let mut alloc = PageAllocator::new();
    let mut root = PageTable::new();
    assert_eq!(init_memory(&mut alloc, &mut root, &b), Ok(()));
    assert_eq!(alloc.heap_start(), b.heap_start);
    assert_eq!(alloc.total_pages(), 32);
    assert_eq!(looked_up(&root, 0x8020_0000), Some((0x8020_0000, CODE_FLAGS | 1)));
    assert_eq!(looked_up(&root, 0x8020_2000), Some((0x8020_2000, CODE_FLAGS | 1)));
    assert_eq!(looked_up(&root, 0x8020_3000), Some((0x8020_3000, CODE_FLAGS | 1)));
    assert_eq!(looked_up(&root, 0x8020_4000), Some((0x8020_4000, DATA_FLAGS | 1)));
    assert_eq!(looked_up(&root, 0x8020_6000), Some((0x8020_6000, DATA_FLAGS | 1)));
    assert_eq!(looked_up(&root, 0x8020_8000), Some((0x8020_8000, DATA_FLAGS | 1)));
    assert_eq!(looked_up(&root, 0x8020_9000 + 31 * PAGE_SIZE), Some(((0x8020_9000 + 31 * PAGE_SIZE) as u64, DATA_FLAGS | 1)));
    assert_eq!(looked_up(&root, 0x8020_9000 + 32 * PAGE_SIZE), None);
    assert_eq!(looked_up(&root, 0x801f_f000), None);
    assert_eq!(CODE_FLAGS, 10);
    assert_eq!(DATA_FLAGS, 6);
}

#[test]
fn init_memory_refuses_misaligned_segment() {
    let mut b = boot_info();
    b.rodata_start = 0x8020_3004;
    let mut alloc = PageAllocator::new();
    let mut root = PageTable::new();
    assert_eq!(init_memory(&mut alloc, &mut root, &b), Err(MapError::Misaligned));
    assert_eq!(alloc.total_pages(), 0);
    assert_eq!(looked_up(&root, 0x8020_0000), None);
}

#[test]
fn init_handlers_uses_direct_mode() {
    assert_eq!(oxiv::arch::init_handlers(0x8020_0100), 0x8020_0100);
}

#[test]
fn boot_info_checks() {
    let b = boot_info();
    assert!(oxiv::boot::boot_info_valid(&b));
    let mut reversed = b;
    reversed.data_end = reversed.data_start - 1;
    assert!(!oxiv::boot::boot_info_valid(&reversed));
    let mut too_high = b;
    too_high.heap_start = 0xffff_0000;
    too_high.heap_end = 0xffff_f000;
    assert!(oxiv::boot::boot_info_valid(&too_high));
    too_high.heap_start = 0xffff_f000 - 4097 * PAGE_SIZE;
    assert!(!oxiv::boot::boot_info_valid(&too_high));
}

#[test]
fn init_memory_without_table_pages_fails() {
    let mut b = boot_info();
    b.heap_end = b.heap_start + PAGE_SIZE;
    b.stack_start = 0x8080_0000;
    b.stack_end = 0x8080_1000;
    let mut alloc = PageAllocator::new();
    let mut root = PageTable::new();
    assert_eq!(init_memory(&mut alloc, &mut root, &b), Err(MapError::Exhausted));
}

#[test]
fn init_memory_with_one_page_per_region_succeeds() {
    let b = BootInfo {
        text_start: 0x8020_0000,
        text_end: 0x8020_1000,
        rodata_start: 0x8020_1000,
        rodata_end: 0x8020_2000,
        data_start: 0x8020_2000,
        data_end: 0x8020_3000,
        bss_start: 0x8020_3000,
        bss_end: 0x8020_4000,
        stack_start: 0x8020_4000,
        stack_end: 0x8020_5000,
        heap_start: 0x8020_5000,
        heap_end: 0x8020_6000,
    };
    let mut alloc = PageAllocator::new();
    let mut root = PageTable::new();
    assert_eq!(init_memory(&mut alloc, &mut root, &b), Ok(()));
    assert_eq!(alloc.total_pages(), 1);
    assert_eq!(alloc.page_state(0), Some(3));
    assert_eq!(looked_up(&root, 0x8020_5000), Some((0x8020_5000, DATA_FLAGS | 1)));
}
