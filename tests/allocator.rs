use oxiv::page::{align_val, AllocError, DeallocError, PageAllocator, PAGE_SIZE};

const HEAP_START: usize = 0x8020_0000;

fn sixteen_pages() -> PageAllocator {
    let mut alloc = PageAllocator::new();
    alloc.init(HEAP_START, HEAP_START + 16 * PAGE_SIZE);
    alloc
}

#[test]
fn align_val_rounds_up_to_page() {
    assert_eq!(align_val(0, 12), 0);
    assert_eq!(align_val(1, 12), 0x1000);
    assert_eq!(align_val(0x1000, 12), 0x1000);
    assert_eq!(align_val(0x1001, 12), 0x2000);
    assert_eq!(align_val(17, 4), 32);
}

#[test]
fn init_reserves_descriptor_prefix() {
    let alloc = sixteen_pages();
    assert_eq!(alloc.total_pages(), 16);
    assert_eq!(alloc.heap_start(), HEAP_START);
    assert_eq!(alloc.alloc_start(), HEAP_START + PAGE_SIZE);
}

#[test]
fn first_alloc_starts_at_alloc_start() {
    let mut alloc = sixteen_pages();
    let base = alloc.alloc_start();
    assert_eq!(alloc.alloc_pages(1), Ok(base));
    assert_eq!(alloc.alloc_pages(3), Ok(base + PAGE_SIZE));
    assert_eq!(alloc.alloc_pages(2), Ok(base + 4 * PAGE_SIZE));
}

#[test]
fn alloc_of_zero_pages_fails() {
    let mut alloc = sixteen_pages();
    assert_eq!(alloc.alloc_pages(0), Err(AllocError::Exhausted));
}

#[test]
fn round_trip_restores_same_run() {
    for n in 1..=16usize {
        let mut alloc = sixteen_pages();
        let first = alloc.alloc_pages(n).unwrap();
        assert_eq!(first, alloc.alloc_start());
        assert_eq!(alloc.dealloc(first), Ok(()));
        assert_eq!(alloc.alloc_pages(n), Ok(first));
        assert_eq!(alloc.dealloc(first), Ok(()));
        assert_eq!(alloc.alloc_pages(16), Ok(first));
    }
}

#[test]
fn allocations_never_overlap() {
    let mut alloc = sixteen_pages();
    let sizes = [3usize, 1, 4, 2, 5, 1];
    let mut runs: Vec<(usize, usize)> = Vec::new();
    for n in sizes {
        let addr = alloc.alloc_pages(n).unwrap();
        runs.push((addr, addr + n * PAGE_SIZE));
    }
    for i in 0..runs.len() {
        for j in 0..runs.len() {
            if i != j {
                let (a0, a1) = runs[i];
                let (b0, b1) = runs[j];
                assert!(a1 <= b0 || b1 <= a0);
            }
        }
    }
    assert_eq!(alloc.alloc_pages(1), Err(AllocError::Exhausted));
}

#[test]
fn exhaustion_leaves_state_unchanged() {
    let mut alloc = sixteen_pages();
    assert_eq!(alloc.alloc_pages(17), Err(AllocError::Exhausted));
    assert_eq!(alloc.alloc_pages(16), Ok(alloc.alloc_start()));
    assert_eq!(alloc.alloc_pages(1), Err(AllocError::Exhausted));
}

#[test]
fn first_fit_reuses_lowest_hole() {
    let mut alloc = sixteen_pages();
    let a = alloc.alloc_pages(2).unwrap();
    let b = alloc.alloc_pages(3).unwrap();
    let c = alloc.alloc_pages(2).unwrap();
    assert_eq!(alloc.dealloc(b), Ok(()));
    assert_eq!(alloc.alloc_pages(4), Ok(c + 2 * PAGE_SIZE));
    assert_eq!(alloc.alloc_pages(2), Ok(b));
    assert_eq!(alloc.alloc_pages(1), Ok(b + 2 * PAGE_SIZE));
    assert_eq!(a, alloc.alloc_start());
}

#[test]
fn double_free_is_refused() {
    let mut alloc = sixteen_pages();
    let a = alloc.alloc_pages(4).unwrap();
    assert_eq!(alloc.dealloc(a), Ok(()));
    assert_eq!(alloc.dealloc(a), Err(DeallocError::NotLast));
}

#[test]
fn dealloc_outside_region_is_refused() {
    let mut alloc = sixteen_pages();
    let base = alloc.alloc_start();
    assert_eq!(alloc.dealloc(base - 1), Err(DeallocError::OutOfBounds));
    assert_eq!(alloc.dealloc(base + 16 * PAGE_SIZE), Err(DeallocError::OutOfBounds));
    assert_eq!(alloc.dealloc(HEAP_START), Err(DeallocError::OutOfBounds));
}

#[test]
fn dealloc_of_free_page_is_refused() {
    let mut alloc = sixteen_pages();
    assert_eq!(alloc.dealloc(alloc.alloc_start()), Err(DeallocError::NotLast));
}

#[test]
fn dealloc_inside_run_frees_its_tail() {
    let mut alloc = sixteen_pages();
    let a = alloc.alloc_pages(4).unwrap();
    assert_eq!(alloc.dealloc(a + 2 * PAGE_SIZE), Ok(()));
    assert_eq!(alloc.alloc_pages(2), Ok(a + 2 * PAGE_SIZE));
}

#[test]
fn zero_alloc_clears_reused_pages() {
    let mut alloc = sixteen_pages();
    let a = alloc.alloc_pages(2).unwrap();
    for offset in [0usize, 1, 4095, 4096, 8191] {
        assert!(alloc.write_byte(a + offset, 0xAB));
        assert_eq!(alloc.read_byte(a + offset), Some(0xAB));
    }
    assert!(alloc.write_byte(a + 2 * PAGE_SIZE, 0xCD));
    assert_eq!(alloc.dealloc(a), Ok(()));
    let z = alloc.zero_alloc(2).unwrap();
    assert_eq!(z, a);
    for offset in 0..2 * PAGE_SIZE {
        assert_eq!(alloc.read_byte(z + offset), Some(0));
    }
    assert_eq!(alloc.read_byte(a + 2 * PAGE_SIZE), Some(0xCD));
}

#[test]
fn zero_alloc_propagates_exhaustion() {
    let mut alloc = sixteen_pages();
    assert_eq!(alloc.zero_alloc(17), Err(AllocError::Exhausted));
    assert_eq!(alloc.zero_alloc(0), Err(AllocError::Exhausted));
}

#[test]
fn bytes_outside_pages_are_not_reachable() {
    let mut alloc = sixteen_pages();
    assert_eq!(alloc.read_byte(HEAP_START), None);
    assert_eq!(alloc.read_byte(alloc.alloc_start() + 16 * PAGE_SIZE), None);
    assert!(!alloc.write_byte(HEAP_START, 1));
}

#[test]
fn empty_allocator_has_no_pages() {
    let mut alloc = PageAllocator::new();
    assert_eq!(alloc.total_pages(), 0);
    assert_eq!(alloc.alloc_pages(1), Err(AllocError::Exhausted));
}

#[test]
fn page_state_shows_runs() {
    let mut alloc = sixteen_pages();
    alloc.alloc_pages(3).unwrap();
    alloc.alloc_pages(1).unwrap();
    assert_eq!(alloc.page_state(0), Some(1));
    assert_eq!(alloc.page_state(1), Some(1));
    assert_eq!(alloc.page_state(2), Some(3));
    assert_eq!(alloc.page_state(3), Some(3));
    assert_eq!(alloc.page_state(4), Some(0));
    assert_eq!(alloc.page_state(16), None);
}

#[test]
fn default_allocator_is_empty() {
    let alloc = PageAllocator::default();
    assert_eq!(alloc.total_pages(), 0);
    assert_eq!(alloc.page_state(0), None);
}

#[test]
fn allocation_listing_marks_blocks() {
    let mut alloc = sixteen_pages();
    let base = alloc.alloc_start();
    alloc.alloc_pages(2).unwrap();
    alloc.alloc_pages(1).unwrap();
    let lines = alloc.print_page_allocations();
    assert_eq!(lines.len(), 3);
    assert_eq!(lines[0].address, base);
    assert!(lines[0].starts_block && !lines[0].ends_block);
    assert_eq!(lines[1].address, base + PAGE_SIZE);
    assert!(!lines[1].starts_block && lines[1].ends_block);
    assert_eq!(lines[2].address, base + 2 * PAGE_SIZE);
    assert!(lines[2].starts_block && lines[2].ends_block);
    assert!(PageAllocator::new().print_page_allocations().is_empty());
}
