//! Physical page allocator: one flag descriptor per page of a fixed heap
//! region, first-fit allocation of runs of consecutive pages.

use vstd::prelude::*;

verus! {

/// log2 of the page size.
pub const PAGE_ORDER: usize = 12;

/// Size of one physical page in bytes.
pub const PAGE_SIZE: usize = 4096;

/// First address past the 32-bit physical address space the kernel runs in.
pub const ADDRESS_SPACE_END: u64 = 0x1_0000_0000;

/// Bytes of bookkeeping each page takes in the reserved prefix of the heap.
pub const DESCRIPTOR_SIZE: usize = 1;

/// The descriptor value of a free page.
pub const FREE: u8 = 0;

/// The descriptor value of a taken page that is not the last of its run.
pub const TAKEN: u8 = 1;

/// The descriptor value of the last page of a run (taken and last).
pub const TAKEN_LAST: u8 = 3;

/// The least multiple of `align` that is not below `val`.
pub open spec fn round_up(val: int, align: int) -> int
    recommends
        align > 0,
{
    (val + align - 1) / align * align
}

/// The conditions of `align_val`'s result fix it to `round_up`.
proof fn lemma_round_up_unique(v: int, a: int, r: int)
    requires
        a > 0,
        v >= 0,
        r % a == 0,
        v <= r < v + a,
    ensures
        r == round_up(v, a),
{
    let q = (v + a - 1) / a;
    let k = r / a;
    vstd::arithmetic::div_mod::lemma_fundamental_div_mod(v + a - 1, a);
    vstd::arithmetic::div_mod::lemma_fundamental_div_mod(r, a);
    let m = (v + a - 1) % a;
    assert(k == q) by (nonlinear_arith)
        requires
            r == a * k,
            v + a - 1 == a * q + m,
            0 <= m < a,
            v <= r < v + a,
            a > 0,
    ;
    assert(q * a == a * q) by (nonlinear_arith);
}

/// Rounds `val` up to the next multiple of `2^order`.
pub fn align_val(val: usize, order: usize) -> (r: usize)
    requires
        order < 32,
        val + vstd::arithmetic::power2::pow2(order as nat) - 1 <= usize::MAX,
    ensures
        r as int % vstd::arithmetic::power2::pow2(order as nat) as int == 0,
        val <= r,
        r < val + vstd::arithmetic::power2::pow2(order as nat),
{
    proof {
        vstd::arithmetic::power2::lemma_pow2_pos(order as nat);
        vstd::bits::lemma_usize_pow2_no_overflow(order as nat);
        vstd::bits::lemma_usize_shl_is_mul(1, order);
    }
    let align: usize = 1usize << order;
    assert(align as nat == vstd::arithmetic::power2::pow2(order as nat));
    let bumped: usize = val + (align - 1);
    proof {
        vstd::arithmetic::div_mod::lemma_fundamental_div_mod(bumped as int, align as int);
        vstd::arithmetic::div_mod::lemma_mod_multiples_basic(bumped as int / align as int, align as int);
    }
    let r: usize = bumped / align * align;
    r
}

/// The flags a page descriptor can carry.
pub enum PageState {
    Free,
    Taken,
    Last,
}

impl PageState {
    pub open spec fn bits(self) -> u8 {
        match self {
            PageState::Free => 0,
            PageState::Taken => 1,
            PageState::Last => 2,
        }
    }

    fn to_u8(self) -> (r: u8)
        ensures
            r == self.bits(),
    {
        match self {
            PageState::Free => 0,
            PageState::Taken => 1,
            PageState::Last => 2,
        }
    }
}

/// The bookkeeping of one physical page.
#[derive(Clone, Copy)]
pub struct PageDescriptor {
    pub flags: u8,
}

/// Facts on the three descriptor values that occur.
proof fn lemma_flag_values()
    ensures
        FREE & 1 == 0,
        TAKEN & 1 == 1,
        TAKEN_LAST & 1 == 1,
        FREE & 2 == 0,
        TAKEN & 2 == 0,
        TAKEN_LAST & 2 == 2,
        FREE | 1 == TAKEN,
        TAKEN | 2 == TAKEN_LAST,
{
    assert(0u8 & 1 == 0 && 1u8 & 1 == 1 && 3u8 & 1 == 1 && 0u8 & 2 == 0 && 1u8 & 2 == 0
        && 3u8 & 2 == 2 && 0u8 | 1 == 1 && 1u8 | 2 == 3) by (bit_vector);
}

impl PageDescriptor {
    fn new() -> (r: Self)
        ensures
            r.flags == FREE,
    {
        PageDescriptor { flags: PageState::Free.to_u8() }
    }

    fn clear(&mut self)
        ensures
            final(self).flags == FREE,
    {
        self.flags = PageState::Free.to_u8();
    }

    fn add_flag(&mut self, flag: PageState)
        ensures
            final(self).flags == old(self).flags | flag.bits(),
    {
        self.flags = self.flags | flag.to_u8();
    }

    fn is_free(&self) -> (r: bool)
        ensures
            r == (self.flags & 1 == 0),
    {
        !self.is_taken()
    }

    fn is_taken(&self) -> (r: bool)
        ensures
            r == (self.flags & 1 != 0),
    {
        self.flags & PageState::Taken.to_u8() != 0
    }

    fn is_last(&self) -> (r: bool)
        ensures
            r == (self.flags & 2 != 0),
    {
        self.flags & PageState::Last.to_u8() != 0
    }
}

/// Why no run of pages was handed out.
#[derive(Debug, Clone, Copy, PartialEq, Eq, Structural)]
pub enum AllocError {
    /// Zero pages were asked for, or no run of that many free pages exists.
    Exhausted,
}

/// Why a run of pages could not be given back.
#[derive(Debug, Clone, Copy, PartialEq, Eq, Structural)]
pub enum DeallocError {
    /// The pointer lies outside the managed pages.
    OutOfBounds,
    /// The descriptors from the pointer on do not end in a page marked last:
    /// the run was already freed or is corrupted.
    NotLast,
}

/// `n` pages from `start` on exist and are all free.
pub open spec fn run_is_free(pages: Seq<u8>, start: int, n: int) -> bool {
    &&& 0 <= start
    &&& 0 <= n
    &&& start + n <= pages.len()
    &&& forall|i: int| start <= i < start + n ==> pages[i] == FREE
}

/// `start` is the lowest page at which `n` free pages begin.
pub open spec fn is_first_fit(pages: Seq<u8>, start: int, n: int) -> bool {
    &&& run_is_free(pages, start, n)
    &&& forall|s: int| 0 <= s < start ==> !run_is_free(pages, s, n)
}

/// Some run of `n` free pages exists.
pub open spec fn has_free_run(pages: Seq<u8>, n: int) -> bool {
    exists|s: int| run_is_free(pages, s, n)
}

/// The descriptors after `n` pages from `start` on are taken as one run.
pub open spec fn mark_run(pages: Seq<u8>, start: int, n: int) -> Seq<u8> {
    Seq::new(
        pages.len(),
        |i: int|
            if start <= i < start + n - 1 {
                TAKEN
            } else if i == start + n - 1 {
                TAKEN_LAST
            } else {
                pages[i]
            },
    )
}

/// The first page from `i` on that is not a taken, non-last page.
pub open spec fn run_end(pages: Seq<u8>, i: int) -> int
    decreases pages.len() - i,
{
    if 0 <= i < pages.len() && pages[i] == TAKEN {
        run_end(pages, i + 1)
    } else {
        i
    }
}

/// The descriptors after the pages `from..=to` are freed.
pub open spec fn clear_run(pages: Seq<u8>, from: int, to: int) -> Seq<u8> {
    Seq::new(pages.len(), |i: int| if from <= i <= to { FREE } else { pages[i] })
}

/// What giving back the run that starts at page `index` does to the descriptors.
pub open spec fn free_outcome(pages: Seq<u8>, index: int) -> Result<Seq<u8>, DeallocError> {
    if !(0 <= index < pages.len()) {
        Err(DeallocError::OutOfBounds)
    } else if run_end(pages, index) < pages.len() && pages[run_end(pages, index)] == TAKEN_LAST {
        Ok(clear_run(pages, index, run_end(pages, index)))
    } else {
        Err(DeallocError::NotLast)
    }
}

/// A descriptor value that the allocator writes.
pub open spec fn valid_flag(f: u8) -> bool {
    f == FREE || f == TAKEN || f == TAKEN_LAST
}

/// Number of pages a heap region of `size` bytes is divided into.
pub open spec fn page_count(size: int) -> int {
    size / PAGE_SIZE as int
}

/// First allocatable address of a heap region: past one descriptor per page,
/// rounded up to a page boundary.
pub open spec fn alloc_base_of(heap_start: int, heap_end: int) -> int {
    round_up(heap_start + page_count(heap_end - heap_start) * DESCRIPTOR_SIZE, PAGE_SIZE as int)
}

/// The pages of the heap region `heap_start..heap_end` lie inside the
/// address space.
pub open spec fn layout_fits(heap_start: int, heap_end: int) -> bool {
    &&& 0 <= heap_start <= heap_end
    &&& alloc_base_of(heap_start, heap_end) + page_count(heap_end - heap_start) * PAGE_SIZE
        <= ADDRESS_SPACE_END
    &&& alloc_base_of(heap_start, heap_end) + page_count(heap_end - heap_start) * PAGE_SIZE
        <= usize::MAX
}

/// `n` pages from `start` on exist and none of them is free.
pub open spec fn run_is_taken(pages: Seq<u8>, start: int, n: int) -> bool {
    &&& 0 <= start
    &&& 0 <= n
    &&& start + n <= pages.len()
    &&& forall|i: int| start <= i < start + n ==> pages[i] != FREE
}

/// The scan for the end of a run stops at the first page that is not a
/// taken, non-last page.
proof fn lemma_run_end_at(pages: Seq<u8>, j: int, e: int)
    requires
        0 <= j <= e < pages.len(),
        forall|k: int| j <= k < e ==> pages[k] == TAKEN,
        pages[e] != TAKEN,
    ensures
        run_end(pages, j) == e,
    decreases e - j,
{
    if j < e {
        lemma_run_end_at(pages, j + 1, e);
    }
}

/// The end of a run lies at or past where the scan starts.
proof fn lemma_run_end_from(pages: Seq<u8>, j: int)
    ensures
        run_end(pages, j) >= j,
    decreases pages.len() - j,
{
    if 0 <= j < pages.len() && pages[j] == TAKEN {
        lemma_run_end_from(pages, j + 1);
    }
}

/// On a fresh allocator every request of 1 to all pages is met by the run at
/// page 0.
pub proof fn lemma_fresh_first_fit(pages: Seq<u8>, n: int)
    requires
        forall|i: int| 0 <= i < pages.len() ==> pages[i] == FREE,
        1 <= n <= pages.len(),
    ensures
        is_first_fit(pages, 0, n),
        has_free_run(pages, n),
{
    assert(run_is_free(pages, 0, n));
}

/// Taking a run and at once giving it back at the returned address restores
/// every descriptor: the same run is free again at the same address.
pub proof fn lemma_alloc_dealloc_round_trip(
    before: PageAllocator,
    after: PageAllocator,
    n: int,
    addr: int,
)
    requires
        n >= 1,
        before.took_run(&after, n, addr),
    ensures
        free_outcome(after.pages(), after.index_of(addr)) == Ok::<Seq<u8>, DeallocError>(
            before.pages(),
        ),
{
    let pages = before.pages();
    let s = before.index_of(addr);
    let marked = mark_run(pages, s, n);
    lemma_run_end_at(marked, s, s + n - 1);
    assert(clear_run(marked, s, s + n - 1) =~= pages);
}

/// A run taken while another run is taken never overlaps it, and both are
/// taken afterwards; so no two runs that allocations hand out overlap.
pub proof fn lemma_alloc_disjoint(
    before: PageAllocator,
    after: PageAllocator,
    start: int,
    n: int,
    new_n: int,
    addr: int,
)
    requires
        n >= 1,
        new_n >= 1,
        before.took_run(&after, new_n, addr),
        run_is_taken(before.pages(), start, n),
    ensures
        start + n <= after.index_of(addr) || after.index_of(addr) + new_n <= start,
        run_is_taken(after.pages(), start, n),
        run_is_taken(after.pages(), after.index_of(addr), new_n),
{
    let s = before.index_of(addr);
    assert(after.index_of(addr) == s);
    if !(start + n <= s || s + new_n <= start) {
        if start <= s {
            assert(before.pages()[s] == FREE);
        } else {
            assert(before.pages()[start] == FREE);
        }
    }
}

/// `states[k + 1]` is `states[k]` after the `k`-th allocation in a row, of
/// `ns[k]` pages at `addrs[k]`.
pub open spec fn allocation_sequence(states: Seq<PageAllocator>, ns: Seq<int>, addrs: Seq<int>) -> bool {
    &&& states.len() == ns.len() + 1
    &&& addrs.len() == ns.len()
    &&& forall|k: int|
        #![trigger addrs[k]]
        0 <= k < ns.len() ==> ns[k] >= 1 && states[k].took_run(
            &states[k + 1],
            ns[k],
            addrs[k],
        )
}

/// Along a row of allocations, the run of allocation `i` stays taken.
proof fn lemma_run_stays_taken(
    states: Seq<PageAllocator>,
    ns: Seq<int>,
    addrs: Seq<int>,
    i: int,
    j: int,
)
    requires
        allocation_sequence(states, ns, addrs),
        0 <= i < j <= ns.len(),
    ensures
        run_is_taken(states[j].pages(), states[0].index_of(addrs[i]), ns[i]),
        states[j].alloc_base() == states[0].alloc_base(),
    decreases j,
{
    if j == 1 {
        assert(states[0].took_run(&states[1], ns[0], addrs[0]));
    } else {
        lemma_run_stays_taken(states, ns, addrs, 0, j - 1);
        assert(states[j - 1].took_run(&states[j], ns[j - 1], addrs[j - 1]));
        if i == j - 1 {
        } else {
            lemma_run_stays_taken(states, ns, addrs, i, j - 1);
            lemma_alloc_disjoint(
                states[j - 1],
                states[j],
                states[0].index_of(addrs[i]),
                ns[i],
                ns[j - 1],
                addrs[j - 1],
            );
        }
    }
}

/// No two runs handed out by a row of allocations overlap: as page ranges
/// from the first allocatable page, each lies wholly before or after the
/// other.
pub proof fn lemma_allocations_disjoint(states: Seq<PageAllocator>, ns: Seq<int>, addrs: Seq<int>)
    requires
        allocation_sequence(states, ns, addrs),
    ensures
        forall|i: int, j: int|
            0 <= i < j < ns.len() ==> {
                let a = states[0].index_of(#[trigger] addrs[i]);
                let b = states[0].index_of(#[trigger] addrs[j]);
                a + ns[i] <= b || b + ns[j] <= a
            },
{
    assert forall|i: int, j: int| 0 <= i < j < ns.len() implies {
        let a = states[0].index_of(#[trigger] addrs[i]);
        let b = states[0].index_of(#[trigger] addrs[j]);
        a + ns[i] <= b || b + ns[j] <= a
    } by {
        lemma_run_stays_taken(states, ns, addrs, i, j);
        assert(states[j].took_run(&states[j + 1], ns[j], addrs[j]));
        lemma_alloc_disjoint(
            states[j],
            states[j + 1],
            states[0].index_of(addrs[i]),
            ns[i],
            ns[j],
            addrs[j],
        );
    }
}

/// No run longer than the whole region is free: asking for more pages than
/// exist fails and leaves the descriptors as they were.
pub proof fn lemma_exhausted(pages: Seq<u8>, n: int)
    requires
        n > pages.len(),
    ensures
        !has_free_run(pages, n),
{
}

/// Giving back a run a second time at the same address is refused as a run
/// without a last page.
pub proof fn lemma_double_free(pages: Seq<u8>, index: int)
    requires
        free_outcome(pages, index) is Ok,
    ensures
        free_outcome(free_outcome(pages, index)->Ok_0, index) == Err::<Seq<u8>, DeallocError>(
            DeallocError::NotLast,
        ),
{
    let freed = free_outcome(pages, index)->Ok_0;
    lemma_run_end_from(pages, index);
    assert(freed[index] == FREE);
}

/// Page number that `addr` falls in when pages start at `base`, -1 below it.
pub open spec fn page_index(base: int, addr: int) -> int {
    if addr < base {
        -1
    } else {
        (addr - base) / PAGE_SIZE as int
    }
}

/// A run that an allocation took lies on a page boundary inside the
/// allocatable pages.
pub proof fn lemma_run_in_region(before: PageAllocator, after: PageAllocator, n: int, addr: int)
    requires
        before.wf(),
        before.took_run(&after, n, addr),
    ensures
        addr % PAGE_SIZE as int == 0,
        addr + n * PAGE_SIZE <= before.alloc_end(),
{
    let i = before.index_of(addr);
    vstd::arithmetic::div_mod::lemma_fundamental_div_mod(addr - before.alloc_base(), PAGE_SIZE as int);
    vstd::arithmetic::div_mod::lemma_mod_adds(before.alloc_base(), addr - before.alloc_base(), 4096);
    assert(addr + n * 4096 <= before.alloc_base() + before.pages().len() * 4096) by (nonlinear_arith)
        requires
            addr - before.alloc_base() == 4096 * i + (addr - before.alloc_base()) % 4096,
            (addr - before.alloc_base()) % 4096 == 0,
            i + n <= before.pages().len(),
    ;
}

/// How many of `0..n` satisfy `f`.
pub open spec fn count_where(n: int, f: spec_fn(int) -> bool) -> nat
    decreases n,
{
    if n <= 0 {
        0
    } else {
        count_where(n - 1, f) + if f(n - 1) {
            1nat
        } else {
            0nat
        }
    }
}

/// Counting keeps implication: fewer indices satisfy the stronger predicate,
/// strictly fewer when one index satisfies only the weaker.
pub proof fn lemma_count_le(n: int, f: spec_fn(int) -> bool, g: spec_fn(int) -> bool, w: int)
    requires
        forall|i: int| 0 <= i < n ==> #[trigger] f(i) ==> g(i),
    ensures
        count_where(n, f) <= count_where(n, g),
        0 <= w < n && g(w) && !f(w) ==> count_where(n, f) < count_where(n, g),
    decreases n,
{
    if n > 0 {
        lemma_count_le(n - 1, f, g, w);
    }
}

/// Counting a predicate that is the disjoint union of two others adds their
/// counts.
pub proof fn lemma_count_union(
    n: int,
    f: spec_fn(int) -> bool,
    g: spec_fn(int) -> bool,
    h: spec_fn(int) -> bool,
)
    requires
        forall|i: int| 0 <= i < n ==> #[trigger] h(i) == (f(i) || g(i)),
        forall|i: int| 0 <= i < n ==> !(#[trigger] f(i) && g(i)),
    ensures
        count_where(n, h) == count_where(n, f) + count_where(n, g),
    decreases n,
{
    if n > 0 {
        lemma_count_union(n - 1, f, g, h);
    }
}

/// A predicate that holds nowhere counts nothing; one that counts something
/// holds somewhere.
pub proof fn lemma_count_zero(n: int, f: spec_fn(int) -> bool)
    ensures
        count_where(n, f) == 0 <==> forall|i: int| 0 <= i < n ==> !#[trigger] f(i),
    decreases n,
{
    if n > 0 {
        lemma_count_zero(n - 1, f);
    }
}

/// Number of free pages.
pub open spec fn free_count(pages: Seq<u8>) -> nat {
    count_where(pages.len() as int, |i: int| pages[i] == FREE)
}

/// A single page is to be had exactly when some page is free.
pub proof fn lemma_free_page(pages: Seq<u8>)
    ensures
        has_free_run(pages, 1) <==> free_count(pages) > 0,
{
    let f = |i: int| pages[i] == FREE;
    lemma_count_zero(pages.len() as int, f);
    if free_count(pages) > 0 {
        let i = choose|i: int| 0 <= i < pages.len() && #[trigger] f(i);
        assert(run_is_free(pages, i, 1));
    }
    if has_free_run(pages, 1) {
        let s = choose|s: int| run_is_free(pages, s, 1);
        assert(f(s));
    }
}

/// Taking one free page leaves one free page less.
pub proof fn lemma_take_one(pages: Seq<u8>, s: int)
    requires
        run_is_free(pages, s, 1),
    ensures
        free_count(mark_run(pages, s, 1)) + 1 == free_count(pages),
{
    let after = mark_run(pages, s, 1);
    let n = pages.len() as int;
    let f = |i: int| after[i] == FREE;
    let g = |i: int| i == s;
    let h = |i: int| pages[i] == FREE;
    lemma_count_union(n, f, g, h);
    lemma_count_single(n, s);
    assert(count_where(n, g) == 1);
}

/// Exactly one index in `0..n` equals `s`, for `s` in range.
pub proof fn lemma_count_single(n: int, s: int)
    requires
        0 <= s < n,
    ensures
        count_where(n, |i: int| i == s) == 1,
    decreases n,
{
    let g = |i: int| i == s;
    if n - 1 > s {
        lemma_count_single(n - 1, s);
    } else {
        lemma_count_zero(n - 1, g);
    }
}

/// `after` holds the pages of `before`, some free ones now taken as
/// single-page runs.
pub open spec fn pages_grown(before: Seq<u8>, after: Seq<u8>) -> bool {
    &&& after.len() == before.len()
    &&& forall|i: int|
        0 <= i < before.len() ==> #[trigger] after[i] == before[i] || (before[i] == FREE
            && after[i] == TAKEN_LAST)
}

/// `after` holds the bytes of `before`, some of them cleared.
pub open spec fn bytes_cleared(before: Seq<u8>, after: Seq<u8>) -> bool {
    &&& after.len() == before.len()
    &&& forall|i: int| 0 <= i < before.len() ==> #[trigger] after[i] == before[i] || after[i] == 0
}

/// One taken page as the diagnostic listing of allocations shows it.
#[derive(Debug, Clone, Copy, PartialEq, Eq, Structural)]
pub struct PageLine {
    /// Address of the page.
    pub address: usize,
    /// The page opens a block: no block was open before it.
    pub starts_block: bool,
    /// The page is the last of its run and closes the block.
    pub ends_block: bool,
}

/// The lines for the taken pages among the first `n`, with pages starting at
/// `base`, and whether a block is still open after them.
pub open spec fn allocation_lines(pages: Seq<u8>, base: int, n: int) -> (Seq<PageLine>, bool)
    decreases n,
{
    if n <= 0 {
        (Seq::empty(), false)
    } else {
        let (lines, open) = allocation_lines(pages, base, n - 1);
        if pages[n - 1] != FREE {
            let line = PageLine {
                address: (base + (n - 1) * PAGE_SIZE) as usize,
                starts_block: !open,
                ends_block: pages[n - 1] == TAKEN_LAST,
            };
            (lines.push(line), pages[n - 1] != TAKEN_LAST)
        } else {
            (lines, open)
        }
    }
}

/// Tracks which pages of a heap region are taken, with one descriptor per
/// page, and holds the bytes of those pages.
pub struct PageAllocator {
    heap_start: usize,
    alloc_start: usize,
    total_num_pages: usize,
    descriptors: Vec<PageDescriptor>,
    memory: Vec<u8>,
}

impl PageAllocator {
    /// The descriptor of each page, by page number.
    pub closed spec fn pages(&self) -> Seq<u8> {
        self.descriptors@.map_values(|d: PageDescriptor| d.flags)
    }

    /// The bytes of the allocatable pages, from the first allocatable address on.
    pub closed spec fn bytes(&self) -> Seq<u8> {
        self.memory@
    }

    /// Start of the heap region.
    pub closed spec fn heap_base(&self) -> int {
        self.heap_start as int
    }

    /// Address of the first allocatable page.
    pub closed spec fn alloc_base(&self) -> int {
        self.alloc_start as int
    }

    /// The bookkeeping fields agree with the descriptors.
    pub closed spec fn fields_agree(&self) -> bool {
        &&& self.total_num_pages == self.descriptors@.len()
        &&& self.heap_start <= self.alloc_start
    }

    /// Address of page `index`.
    pub open spec fn page_address(&self, index: int) -> int {
        self.alloc_base() + index * PAGE_SIZE
    }

    /// Page number that `addr` falls in, -1 below the first page.
    pub open spec fn index_of(&self, addr: int) -> int {
        page_index(self.alloc_base(), addr)
    }

    /// One past the last allocatable address.
    pub open spec fn alloc_end(&self) -> int {
        self.page_address(self.pages().len() as int)
    }

    pub open spec fn wf(&self) -> bool {
        &&& self.fields_agree()
        &&& 0 <= self.heap_base() <= self.alloc_base()
        &&& self.alloc_base() % PAGE_SIZE as int == 0
        &&& self.alloc_end() <= ADDRESS_SPACE_END
        &&& self.alloc_end() <= usize::MAX
        &&& self.bytes().len() == self.pages().len() * PAGE_SIZE
        &&& forall|i: int| 0 <= i < self.pages().len() ==> valid_flag(#[trigger] self.pages()[i])
    }

    /// `after` is `self` with the first fit of `n` pages, at `addr`, taken.
    pub open spec fn took_run(&self, after: &Self, n: int, addr: int) -> bool {
        &&& after.heap_base() == self.heap_base()
        &&& after.alloc_base() == self.alloc_base()
        &&& self.alloc_base() <= addr
        &&& (addr - self.alloc_base()) % PAGE_SIZE as int == 0
        &&& is_first_fit(self.pages(), self.index_of(addr), n)
        &&& after.pages() == mark_run(self.pages(), self.index_of(addr), n)
    }

    /// An allocator that manages no pages yet.
    pub fn new() -> (r: Self)
        ensures
            r.wf(),
            r.pages().len() == 0,
            r.heap_base() == 0,
            r.alloc_base() == 0,
    {
        PageAllocator {
            heap_start: 0,
            total_num_pages: 0,
            alloc_start: 0,
            descriptors: Vec::new(),
            memory: Vec::new(),
        }
    }

    /// Takes over the heap region `heap_start..heap_end`: one page per
    /// `PAGE_SIZE` bytes of it, all free, allocatable from the first page
    /// boundary past the descriptors.
    pub fn init(&mut self, heap_start: usize, heap_end: usize)
        requires
            layout_fits(heap_start as int, heap_end as int),
        ensures
            final(self).wf(),
            final(self).heap_base() == heap_start,
            final(self).alloc_base() == alloc_base_of(heap_start as int, heap_end as int),
            final(self).pages() == Seq::new(
                page_count(heap_end - heap_start) as nat,
                |i: int| FREE,
            ),
            final(self).bytes() == Seq::new(
                (page_count(heap_end - heap_start) * PAGE_SIZE) as nat,
                |i: int| 0u8,
            ),
    {
        let size: usize = heap_end - heap_start;
        let total_num_pages: usize = size / PAGE_SIZE;
        proof {
            vstd::arithmetic::power2::lemma2_to64();
            vstd::arithmetic::div_mod::lemma_fundamental_div_mod(size as int, PAGE_SIZE as int);
        }
        let alloc_start: usize = align_val(heap_start + total_num_pages * DESCRIPTOR_SIZE, PAGE_ORDER);
        proof {
            lemma_round_up_unique(
                heap_start + total_num_pages * DESCRIPTOR_SIZE,
                PAGE_SIZE as int,
                alloc_start as int,
            );
        }
        let mut descriptors: Vec<PageDescriptor> = Vec::new();
        let mut i: usize = 0;
        while i < total_num_pages
            invariant
                i <= total_num_pages,
                descriptors@.len() == i,
                forall|k: int| 0 <= k < i ==> (#[trigger] descriptors@[k]).flags == FREE,
            decreases total_num_pages - i,
        {
            descriptors.push(PageDescriptor::new());
            i += 1;
        }
        let memory_len: usize = total_num_pages * PAGE_SIZE;
        let mut memory: Vec<u8> = Vec::new();
        let mut b: usize = 0;
        while b < memory_len
            invariant
                b <= memory_len,
                memory@.len() == b,
                forall|k: int| 0 <= k < b ==> #[trigger] memory@[k] == 0u8,
            decreases memory_len - b,
        {
            memory.push(0u8);
            b += 1;
        }
        self.heap_start = heap_start;
        self.total_num_pages = total_num_pages;
        self.alloc_start = alloc_start;
        self.descriptors = descriptors;
        self.memory = memory;
        assert(self.pages() =~= Seq::new(total_num_pages as nat, |i: int| FREE));
        assert(self.bytes() =~= Seq::new(memory_len as nat, |i: int| 0u8));
    }

    /// Takes the lowest run of `nr_of_pages` free pages and returns the
    /// address of its first page.
    pub fn alloc_pages(&mut self, nr_of_pages: usize) -> (r: Result<usize, AllocError>)
        requires
            old(self).wf(),
        ensures
            final(self).wf(),
            r is Ok <==> nr_of_pages > 0 && has_free_run(old(self).pages(), nr_of_pages as int),
            r matches Ok(addr) ==> {
                &&& old(self).took_run(final(self), nr_of_pages as int, addr as int)
                &&& final(self).bytes() == old(self).bytes()
            },
            r is Err ==> r == Err::<usize, AllocError>(AllocError::Exhausted) && *final(self)
                == *old(self),
    {
        let n = nr_of_pages;
        if n == 0 {
            return Err(AllocError::Exhausted);
        }
        let ghost pages = self.pages();
        let total = self.total_num_pages;
        let mut pages_found: usize = 0;
        let mut found = false;
        let mut i: usize = 0;
        while i < total && !found
            invariant
                self.wf(),
                self.pages() == pages,
                total == pages.len(),
                0 < n,
                i <= total,
                pages_found <= i,
                !found ==> {
                    &&& pages_found < n
                    &&& run_is_free(pages, i - pages_found, pages_found as int)
                    &&& (i - pages_found == 0 || pages[i - pages_found - 1] != FREE)
                    &&& forall|s: int| 0 <= s && s + n <= i ==> !run_is_free(pages, s, n as int)
                },
                found ==> {
                    &&& n <= i
                    &&& is_first_fit(pages, i - n, n as int)
                },
            decreases total - i,
        {
            proof {
                lemma_flag_values();
                assert(valid_flag(pages[i as int]));
            }
            let ghost start = i - pages_found;
            if self.descriptors[i].is_free() {
                pages_found += 1;
                if pages_found == n {
                    found = true;
                    assert forall|s: int| 0 <= s < i + 1 - n implies !run_is_free(
                        pages,
                        s,
                        n as int,
                    ) by {
                        assert(s + n <= i);
                    }
                } else {
                    assert forall|s: int| 0 <= s && s + n <= i + 1 implies !run_is_free(
                        pages,
                        s,
                        n as int,
                    ) by {
                        if s + n == i + 1 {
                            assert(start > 0);
                            assert(s <= start - 1 < s + n);
                        }
                    }
                }
            } else {
                assert forall|s: int| 0 <= s && s + n <= i + 1 implies !run_is_free(
                    pages,
                    s,
                    n as int,
                ) by {
                    if s + n == i + 1 {
                        assert(s <= i < s + n);
                    }
                }
                pages_found = 0;
            }
            i += 1;
        }
        if !found {
            assert forall|s: int| !run_is_free(pages, s, n as int) by {
                if run_is_free(pages, s, n as int) {
                    assert(s + n <= i);
                }
            }
            return Err(AllocError::Exhausted);
        }
        let start: usize = i - n;
        let mut j: usize = start;
        while j < i
            invariant
                start <= j <= i,
                i == start + n,
                i <= total,
                total == pages.len(),
                self.fields_agree(),
                self.descriptors@.len() == total,
                self.heap_start == old(self).heap_start,
                self.alloc_start == old(self).alloc_start,
                self.memory == old(self).memory,
                is_first_fit(pages, start as int, n as int),
                forall|k: int|
                    0 <= k < total ==> #[trigger] self.pages()[k] == if start <= k < j {
                        TAKEN
                    } else {
                        pages[k]
                    },
            decreases i - j,
        {
            let ghost before = self.descriptors@;
            let mut d = self.descriptors[j];
            proof {
                lemma_flag_values();
                assert(pages[j as int] == FREE);
                assert(self.pages()[j as int] == before[j as int].flags);
            }
            d.add_flag(PageState::Taken);
            self.descriptors.set(j, d);
            proof {
                assert forall|k: int| 0 <= k < total implies #[trigger] self.pages()[k] == if start
                    <= k < j + 1 {
                    TAKEN
                } else {
                    pages[k]
                } by {
                    assert(self.pages()[k] == self.descriptors@[k].flags);
                    if k != j {
                        assert(self.descriptors@[k] == before[k]);
                        assert(before[k].flags == before.map_values(|d: PageDescriptor| d.flags)[k]);
                    }
                }
            }
            j += 1;
        }
        let ghost before = self.descriptors@;
        let mut last = self.descriptors[i - 1];
        proof {
            lemma_flag_values();
            assert(self.pages()[i - 1] == before[i - 1].flags);
        }
        last.add_flag(PageState::Last);
        self.descriptors.set(i - 1, last);
        proof {
            assert forall|k: int| 0 <= k < total implies #[trigger] self.pages()[k] == mark_run(
                pages,
                start as int,
                n as int,
            )[k] by {
                assert(self.pages()[k] == self.descriptors@[k].flags);
                if k != i - 1 {
                    assert(self.descriptors@[k] == before[k]);
                    assert(before[k].flags == before.map_values(|d: PageDescriptor| d.flags)[k]);
                }
            }
        }
        let addr: usize = self.alloc_start + start * PAGE_SIZE;
        proof {
            assert(self.pages() =~= mark_run(pages, start as int, n as int));
            vstd::arithmetic::div_mod::lemma_mod_multiples_basic(start as int, PAGE_SIZE as int);
            vstd::arithmetic::div_mod::lemma_div_multiples_vanish(start as int, PAGE_SIZE as int);
            assert(forall|k: int|
                0 <= k < self.pages().len() ==> valid_flag(#[trigger] self.pages()[k]));
        }
        Ok(addr)
    }

    /// Gives back the run that starts at the page `page` falls in: its
    /// descriptors are cleared up to and including the one marked last.
    /// Nothing changes on an error.
    pub fn dealloc(&mut self, page: usize) -> (r: Result<(), DeallocError>)
        requires
            old(self).wf(),
        ensures
            final(self).wf(),
            final(self).heap_base() == old(self).heap_base(),
            final(self).alloc_base() == old(self).alloc_base(),
            final(self).bytes() == old(self).bytes(),
            match free_outcome(old(self).pages(), old(self).index_of(page as int)) {
                Ok(after) => r is Ok && final(self).pages() == after,
                Err(e) => r == Err::<(), DeallocError>(e) && *final(self) == *old(self),
            },
    {
        let ghost pages = self.pages();
        if page < self.alloc_start {
            return Err(DeallocError::OutOfBounds);
        }
        let index: usize = (page - self.alloc_start) / PAGE_SIZE;
        let total = self.total_num_pages;
        if index >= total {
            return Err(DeallocError::OutOfBounds);
        }
        proof {
            lemma_flag_values();
        }
        let mut j: usize = index;
        while j < total && self.descriptors[j].is_taken() && !self.descriptors[j].is_last()
            invariant
                self.wf(),
                self.pages() == pages,
                total == pages.len(),
                index <= j <= total,
                run_end(pages, index as int) == run_end(pages, j as int),
                forall|k: int| index <= k < j ==> pages[k] == TAKEN,
            decreases total - j,
        {
            proof {
                lemma_flag_values();
                assert(valid_flag(pages[j as int]));
                assert(pages[j as int] == self.descriptors@[j as int].flags);
                assert(pages[j as int] == TAKEN);
            }
            j += 1;
        }
        proof {
            if j < total {
                assert(valid_flag(pages[j as int]));
                assert(pages[j as int] == self.descriptors@[j as int].flags);
            }
        }
        if j >= total || !self.descriptors[j].is_last() {
            return Err(DeallocError::NotLast);
        }
        let mut k: usize = index;
        while k <= j
            invariant
                index <= k <= j + 1,
                j < total,
                total == pages.len(),
                self.fields_agree(),
                self.descriptors@.len() == total,
                self.heap_start == old(self).heap_start,
                self.alloc_start == old(self).alloc_start,
                self.memory == old(self).memory,
                forall|m: int|
                    0 <= m < total ==> #[trigger] self.pages()[m] == if index <= m < k {
                        FREE
                    } else {
                        pages[m]
                    },
            decreases j + 1 - k,
        {
            let ghost before = self.descriptors@;
            let ghost before_pages = self.pages();
            let mut d = self.descriptors[k];
            d.clear();
            self.descriptors.set(k, d);
            proof {
                assert(self.descriptors@[k as int].flags == FREE);
                assert forall|m: int| 0 <= m < total implies #[trigger] self.pages()[m] == if index
                    <= m < k + 1 {
                    FREE
                } else {
                    pages[m]
                } by {
                    assert(self.pages()[m] == self.descriptors@[m].flags);
                    if m != k {
                        assert(self.descriptors@[m] == before[m]);
                        assert(before[m].flags == before_pages[m]);
                    }
                }
            }
            k += 1;
        }
        proof {
            assert(self.pages() =~= clear_run(pages, index as int, j as int));
            assert(forall|m: int|
                0 <= m < self.pages().len() ==> valid_flag(#[trigger] self.pages()[m]));
        }
        Ok(())
    }

    /// Takes the lowest run of `pages` free pages, as `alloc_pages` does, and
    /// fills it with zero bytes.
    pub fn zero_alloc(&mut self, pages: usize) -> (r: Result<usize, AllocError>)
        requires
            old(self).wf(),
        ensures
            final(self).wf(),
            r is Ok <==> pages > 0 && has_free_run(old(self).pages(), pages as int),
            r matches Ok(addr) ==> {
                &&& old(self).took_run(final(self), pages as int, addr as int)
                &&& final(self).bytes().len() == old(self).bytes().len()
                &&& forall|b: int|
                    0 <= b < final(self).bytes().len() ==> #[trigger] final(self).bytes()[b] == if addr
                        <= final(self).alloc_base() + b < addr + pages * PAGE_SIZE {
                        0u8
                    } else {
                        old(self).bytes()[b]
                    }
            },
            r is Err ==> r == Err::<usize, AllocError>(AllocError::Exhausted) && *final(self)
                == *old(self),
    {
        let page = self.alloc_pages(pages);
        match page {
            Err(e) => Err(e),
            Ok(addr) => {
                let ghost bytes = self.bytes();
                let ghost desc = self.descriptors@;
                let ghost start = self.index_of(addr as int);
                proof {
                    assert(run_is_free(old(self).pages(), start, pages as int));
                    assert((start + pages) * PAGE_SIZE <= self.pages().len() * PAGE_SIZE)
                        by (nonlinear_arith)
                        requires
                            start + pages <= self.pages().len(),
                    ;
                    vstd::arithmetic::div_mod::lemma_fundamental_div_mod(
                        addr - self.alloc_start,
                        PAGE_SIZE as int,
                    );
                }
                let first: usize = addr - self.alloc_start;
                let end: usize = first + pages * PAGE_SIZE;
                let mut b: usize = first;
                while b < end
                    invariant
                        first <= b <= end,
                        end <= self.memory@.len(),
                        self.memory@.len() == bytes.len(),
                        first == addr - self.alloc_base(),
                        end == first + pages * PAGE_SIZE,
                        self.heap_start == old(self).heap_start,
                        self.alloc_start == old(self).alloc_start,
                        self.descriptors@ == desc,
                        self.total_num_pages == old(self).total_num_pages,
                        forall|m: int|
                            0 <= m < bytes.len() ==> #[trigger] self.memory@[m] == if first <= m < b {
                                0u8
                            } else {
                                bytes[m]
                            },
                    decreases end - b,
                {
                    self.memory.set(b, 0u8);
                    b += 1;
                }
                assert(self.pages() == desc.map_values(|d: PageDescriptor| d.flags));
                Ok(addr)
            },
        }
    }

    /// The byte at `addr`, if `addr` lies in an allocatable page.
    pub fn read_byte(&self, addr: usize) -> (r: Option<u8>)
        requires
            self.wf(),
        ensures
            r == if self.alloc_base() <= addr < self.alloc_end() {
                Some(self.bytes()[addr - self.alloc_base()])
            } else {
                None::<u8>
            },
    {
        if addr < self.alloc_start || addr - self.alloc_start >= self.memory.len() {
            None
        } else {
            Some(self.memory[addr - self.alloc_start])
        }
    }

    /// Stores `value` at `addr` if `addr` lies in an allocatable page, and
    /// says whether it did.
    pub fn write_byte(&mut self, addr: usize, value: u8) -> (r: bool)
        requires
            old(self).wf(),
        ensures
            final(self).wf(),
            r == (old(self).alloc_base() <= addr < old(self).alloc_end()),
            final(self).pages() == old(self).pages(),
            final(self).heap_base() == old(self).heap_base(),
            final(self).alloc_base() == old(self).alloc_base(),
            final(self).bytes() == if r {
                old(self).bytes().update(addr - old(self).alloc_base(), value)
            } else {
                old(self).bytes()
            },
    {
        if addr < self.alloc_start || addr - self.alloc_start >= self.memory.len() {
            false
        } else {
            let offset: usize = addr - self.alloc_start;
            self.memory.set(offset, value);
            true
        }
    }

    /// Address of the first allocatable page.
    pub fn alloc_start(&self) -> (r: usize)
        ensures
            r == self.alloc_base(),
    {
        self.alloc_start
    }

    /// Start of the heap region.
    pub fn heap_start(&self) -> (r: usize)
        ensures
            r == self.heap_base(),
    {
        self.heap_start
    }

    /// Number of pages managed.
    pub fn total_pages(&self) -> (r: usize)
        requires
            self.wf(),
        ensures
            r == self.pages().len(),
    {
        self.total_num_pages
    }

    /// Every taken page in address order, each marked where a block opens
    /// and where its run ends: what a diagnostic print of the allocations
    /// shows.
    pub fn print_page_allocations(&self) -> (r: Vec<PageLine>)
        requires
            self.wf(),
        ensures
            r@ == allocation_lines(self.pages(), self.alloc_base(), self.pages().len() as int).0,
    {
        let mut lines: Vec<PageLine> = Vec::new();
        let mut in_block = false;
        let mut i: usize = 0;
        while i < self.total_num_pages
            invariant
                self.wf(),
                i <= self.pages().len(),
                (lines@, in_block) == allocation_lines(self.pages(), self.alloc_base(), i as int),
            decreases self.total_num_pages - i,
        {
            proof {
                assert((i + 1) * PAGE_SIZE <= self.pages().len() * PAGE_SIZE) by (nonlinear_arith)
                    requires
                        i + 1 <= self.pages().len(),
                ;
                lemma_flag_values();
                assert(valid_flag(self.pages()[i as int]));
                assert(self.pages()[i as int] == self.descriptors@[i as int].flags);
            }
            let d = self.descriptors[i];
            if d.is_taken() {
                let last = d.is_last();
                lines.push(
                    PageLine {
                        address: self.alloc_start + i * PAGE_SIZE,
                        starts_block: !in_block,
                        ends_block: last,
                    },
                );
                in_block = !last;
            }
            i += 1;
        }
        lines
    }

    /// The descriptor of page `index`, if there is such a page.
    pub fn page_state(&self, index: usize) -> (r: Option<u8>)
        requires
            self.wf(),
        ensures
            r == if index < self.pages().len() {
                Some(self.pages()[index as int])
            } else {
                None::<u8>
            },
    {
        if index < self.total_num_pages {
            Some(self.descriptors[index].flags)
        } else {
            None
        }
    }
}

impl Default for PageAllocator {
    fn default() -> (r: Self)
        ensures
            r.wf(),
            r.pages().len() == 0,
    {
        Self::new()
    }
}

} // verus!
