use oxiv::allocator::KernelAllocator;
use oxiv::page::{AllocError, DeallocError, PageAllocator, PAGE_SIZE};

const HEAP_START: usize = 0x8020_0000;

fn facade() -> (KernelAllocator, usize) {
    let mut pages = PageAllocator::new();
    pages.init(HEAP_START, HEAP_START + 8 * PAGE_SIZE);
    let base = pages.alloc_start();
    let mut k = KernelAllocator::new();
    k.init(pages);
    (k, base)
}

#[test]
fn requests_round_up_to_whole_pages() {
    let (mut k, base) = facade();
    assert_eq!(k.alloc_bytes(1), Ok(base));
    assert_eq!(k.alloc_bytes(PAGE_SIZE), Ok(base + PAGE_SIZE));
    assert_eq!(k.alloc_bytes(PAGE_SIZE + 1), Ok(base + 2 * PAGE_SIZE));
    assert_eq!(k.alloc_bytes(3 * PAGE_SIZE), Ok(base + 4 * PAGE_SIZE));
    assert_eq!(k.alloc_bytes(1), Ok(base + 7 * PAGE_SIZE));
    assert_eq!(k.alloc_bytes(1), Err(AllocError::Exhausted));
}

#[test]
fn zero_sized_request_fails() {
    let (mut k, _) = facade();
    assert_eq!(k.alloc_bytes(0), Err(AllocError::Exhausted));
}

#[test]
fn dealloc_bytes_frees_the_run() {
    let (mut k, base) = facade();
    let a = k.alloc_bytes(2 * PAGE_SIZE).unwrap();
    assert_eq!(k.dealloc_bytes(a), Ok(()));
    assert_eq!(k.dealloc_bytes(a), Err(DeallocError::NotLast));
    assert_eq!(k.alloc_bytes(8 * PAGE_SIZE), Ok(base));
}
