//! The kernel's general allocator: it rounds each request up to whole pages
//! and takes them from the page allocator.

use vstd::prelude::*;

use crate::page::{
    align_val, has_free_run, AllocError, DeallocError, PageAllocator, PAGE_ORDER, PAGE_SIZE,
};

verus! {

/// Number of whole pages that `size` bytes take.
pub open spec fn pages_for(size: int) -> int {
    (size + PAGE_SIZE - 1) / PAGE_SIZE as int
}

/// Serves byte-sized requests from a page allocator, once it has one.
pub struct KernelAllocator {
    alloc: Option<PageAllocator>,
}

impl KernelAllocator {
    /// The page allocator requests go to; none before `init`.
    pub closed spec fn pages(&self) -> Option<PageAllocator> {
        self.alloc
    }

    /// A facade with no page allocator yet.
    pub fn new() -> (r: Self)
        ensures
            r.pages() is None,
    {
        KernelAllocator { alloc: None }
    }

    /// From now on requests go to `alloc`.
    pub fn init(&mut self, alloc: PageAllocator)
        ensures
            final(self).pages() == Some(alloc),
    {
        self.alloc = Some(alloc);
    }

    /// Takes the lowest run of pages that holds `size` bytes and returns its
    /// address.
    pub fn alloc_bytes(&mut self, size: usize) -> (r: Result<usize, AllocError>)
        requires
            old(self).pages() matches Some(a) && a.wf(),
            size + PAGE_SIZE - 1 <= usize::MAX,
        ensures
            final(self).pages() matches Some(a) && a.wf(),
            ({
                let before = old(self).pages()->Some_0;
                let after = final(self).pages()->Some_0;
                let n = pages_for(size as int);
                &&& r is Ok <==> n > 0 && has_free_run(before.pages(), n)
                &&& r matches Ok(addr) ==> before.took_run(&after, n, addr as int) && after.bytes()
                    == before.bytes()
                &&& r is Err ==> r == Err::<usize, AllocError>(AllocError::Exhausted) && after
                    == before
            }),
    {
        proof {
            vstd::arithmetic::power2::lemma2_to64();
        }
        let rounded = align_val(size, PAGE_ORDER);
        proof {
            vstd::arithmetic::div_mod::lemma_fundamental_div_mod(size + 4095, 4096);
            vstd::arithmetic::div_mod::lemma_fundamental_div_mod(rounded as int, 4096);
        }
        let nr_of_pages = rounded / PAGE_SIZE;
        let mut alloc = self.alloc.take().unwrap();
        let r = alloc.alloc_pages(nr_of_pages);
        self.alloc = Some(alloc);
        r
    }

    /// Gives back the run that starts at `ptr`, as `PageAllocator::dealloc`
    /// does.
    pub fn dealloc_bytes(&mut self, ptr: usize) -> (r: Result<(), DeallocError>)
        requires
            old(self).pages() matches Some(a) && a.wf(),
        ensures
            final(self).pages() matches Some(a) && a.wf(),
            ({
                let before = old(self).pages()->Some_0;
                let after = final(self).pages()->Some_0;
                &&& after.heap_base() == before.heap_base()
                &&& after.alloc_base() == before.alloc_base()
                &&& after.bytes() == before.bytes()
                &&& match crate::page::free_outcome(before.pages(), before.index_of(ptr as int)) {
                    Ok(p) => r is Ok && after.pages() == p,
                    Err(e) => r == Err::<(), DeallocError>(e) && after == before,
                }
            }),
    {
        let mut alloc = self.alloc.take().unwrap();
        let r = alloc.dealloc(ptr);
        self.alloc = Some(alloc);
        r
    }

    /// The page allocator, for callers that take whole pages themselves.
    pub fn page_allocator_mut(&mut self) -> (r: Option<&mut PageAllocator>)
        ensures
            old(self).pages() is None ==> r is None && final(self).pages() is None,
            old(self).pages() matches Some(a) ==> {
                &&& r matches Some(p) && *p == a
                &&& final(self).pages() == Some(*final(r->Some_0))
            },
    {
        match &mut self.alloc {
            Some(a) => Some(a),
            None => None,
        }
    }
}

} // verus!
