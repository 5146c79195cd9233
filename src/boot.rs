//! Memory set-up at boot: the page allocator takes over the heap and every
//! kernel segment is mapped one to one into the root page table.

use vstd::prelude::*;

use crate::page::{
    alloc_base_of, count_where, free_count, has_free_run, layout_fits, lemma_count_le,
    lemma_count_union, page_count, PageAllocator, ADDRESS_SPACE_END, DESCRIPTOR_SIZE, FREE,
    PAGE_SIZE, TAKEN_LAST,
};
use crate::page_table::{
    entry_phys, entry_valid, lemma_zero_entry, range_pages, range_uses, tables_drawn,
    tables_needed, valid_count, EntryFlags, MapError, PageTable, VirtualAddress,
    ENTRIES_PER_TABLE,
};

verus! {

/// Permission bits of kernel code and read-only data: read and execute.
pub const CODE_FLAGS: usize = 10;

/// Permission bits of kernel data, zero-initialised data, stack and heap:
/// read and write.
pub const DATA_FLAGS: usize = 6;

/// Start and end address of each kernel segment, as the boot code hands
/// them over.
#[derive(Debug, Clone, Copy)]
pub struct BootInfo {
    pub text_start: usize,
    pub text_end: usize,
    pub rodata_start: usize,
    pub rodata_end: usize,
    pub data_start: usize,
    pub data_end: usize,
    pub bss_start: usize,
    pub bss_end: usize,
    pub stack_start: usize,
    pub stack_end: usize,
    pub heap_start: usize,
    pub heap_end: usize,
}

/// A segment that ends no earlier than it starts and whose last page lies
/// inside the 32-bit space.
pub open spec fn segment_ok(start: usize, end: usize) -> bool {
    &&& start <= end
    &&& end + PAGE_SIZE - 1 <= usize::MAX
    &&& end + PAGE_SIZE - 1 < ADDRESS_SPACE_END
}

/// Every segment is in order and the heap's pages fit the address space.
pub open spec fn boot_info_ok(b: BootInfo) -> bool {
    &&& segment_ok(b.text_start, b.text_end)
    &&& segment_ok(b.rodata_start, b.rodata_end)
    &&& segment_ok(b.data_start, b.data_end)
    &&& segment_ok(b.bss_start, b.bss_end)
    &&& segment_ok(b.stack_start, b.stack_end)
    &&& segment_ok(b.heap_start, b.heap_end)
    &&& layout_fits(b.heap_start as int, b.heap_end as int)
}

fn segment_valid(start: usize, end: usize) -> (r: bool)
    ensures
        r == segment_ok(start, end),
{
    start <= end && end <= usize::MAX - (PAGE_SIZE - 1) && (end as u64) + (PAGE_SIZE as u64 - 1)
        < ADDRESS_SPACE_END
}

/// Says whether `init_memory` accepts `b`: every segment in order and the
/// heap's pages inside the address space.
pub fn boot_info_valid(b: &BootInfo) -> (r: bool)
    ensures
        r == boot_info_ok(*b),
{
    if !(segment_valid(b.text_start, b.text_end) && segment_valid(b.rodata_start, b.rodata_end)
        && segment_valid(b.data_start, b.data_end) && segment_valid(b.bss_start, b.bss_end)
        && segment_valid(b.stack_start, b.stack_end) && segment_valid(b.heap_start, b.heap_end)) {
        return false;
    }
    let size = b.heap_end - b.heap_start;
    proof {
        vstd::arithmetic::div_mod::lemma_div_is_ordered_by_denominator(size as int, 1, 4096);
        assert(size as int / 1 == size);
    }
    let total = (size / PAGE_SIZE) as u64;
    assert(total <= 0x1_0000_0000 && b.heap_start < 0x1_0000_0000);
    let per_page: u64 = DESCRIPTOR_SIZE as u64;
    assert(per_page == 1);
    let prefix_end = b.heap_start as u64 + total * per_page;
    let alloc_start = (prefix_end + (PAGE_SIZE as u64 - 1)) / PAGE_SIZE as u64 * PAGE_SIZE as u64;
    let region_end = alloc_start + total * PAGE_SIZE as u64;
    region_end <= ADDRESS_SPACE_END && region_end <= usize::MAX as u64
}

/// Every segment starts on a page boundary.
pub open spec fn segments_aligned(b: BootInfo) -> bool {
    &&& b.text_start % PAGE_SIZE == 0
    &&& b.rodata_start % PAGE_SIZE == 0
    &&& b.data_start % PAGE_SIZE == 0
    &&& b.bss_start % PAGE_SIZE == 0
    &&& b.stack_start % PAGE_SIZE == 0
    &&& b.heap_start % PAGE_SIZE == 0
}

/// `w` lies in one of the pages a segment is mapped with.
pub open spec fn in_segment(w: int, start: usize, end: usize) -> bool {
    start <= w < start + range_pages(start as int, end as int) * PAGE_SIZE
}

/// The page `w` is in, mapped to itself with `flags`.
pub open spec fn identity(w: int, flags: usize) -> Option<(u64, usize)> {
    Some((((w / PAGE_SIZE as int) * PAGE_SIZE) as u64, flags | 1))
}

/// What `w` translates to once the segments are mapped in order text,
/// read-only data, data, zero-initialised data, stack, heap: a later segment
/// wins where two share a page.
pub open spec fn kernel_translation(b: BootInfo, w: int) -> Option<(u64, usize)> {
    if in_segment(w, b.heap_start, b.heap_end) {
        identity(w, DATA_FLAGS)
    } else if in_segment(w, b.stack_start, b.stack_end) {
        identity(w, DATA_FLAGS)
    } else if in_segment(w, b.bss_start, b.bss_end) {
        identity(w, DATA_FLAGS)
    } else if in_segment(w, b.data_start, b.data_end) {
        identity(w, DATA_FLAGS)
    } else if in_segment(w, b.rodata_start, b.rodata_end) {
        identity(w, CODE_FLAGS)
    } else if in_segment(w, b.text_start, b.text_end) {
        identity(w, CODE_FLAGS)
    } else {
        None
    }
}

/// Start of segment `m`, in mapping order: text, read-only data, data,
/// zero-initialised data, stack, heap.
pub open spec fn seg_start(b: BootInfo, m: int) -> usize {
    if m == 0 {
        b.text_start
    } else if m == 1 {
        b.rodata_start
    } else if m == 2 {
        b.data_start
    } else if m == 3 {
        b.bss_start
    } else if m == 4 {
        b.stack_start
    } else {
        b.heap_start
    }
}

/// End of segment `m`, in mapping order.
pub open spec fn seg_end(b: BootInfo, m: int) -> usize {
    if m == 0 {
        b.text_end
    } else if m == 1 {
        b.rodata_end
    } else if m == 2 {
        b.data_end
    } else if m == 3 {
        b.bss_end
    } else if m == 4 {
        b.stack_end
    } else {
        b.heap_end
    }
}

/// Permission bits of segment `m`: code for the first two, data after.
pub open spec fn seg_flags(m: int) -> usize {
    if m < 2 {
        CODE_FLAGS
    } else {
        DATA_FLAGS
    }
}

/// Some page of segment `m` has level-1 index `j`.
pub open spec fn seg_uses(b: BootInfo, m: int, j: int) -> bool {
    range_uses(
        seg_start(b, m) as int,
        range_pages(seg_start(b, m) as int, seg_end(b, m) as int),
        j,
    )
}

/// Some page of the first `k` segments has level-1 index `j`.
pub open spec fn used_upto(b: BootInfo, k: int, j: int) -> bool
    decreases k,
{
    if k <= 0 {
        false
    } else {
        used_upto(b, k - 1, j) || seg_uses(b, k - 1, j)
    }
}

/// Number of level-1 regions the segments use: the level-0 tables their
/// mapping needs.
pub open spec fn regions_used(b: BootInfo) -> nat {
    count_where(ENTRIES_PER_TABLE as int, |j: int| used_upto(b, 6, j))
}

/// What `w` translates to once the first `k` segments are mapped.
pub open spec fn layered(b: BootInfo, k: int, w: int) -> Option<(u64, usize)>
    decreases k,
{
    if k <= 0 {
        None
    } else if in_segment(w, seg_start(b, k - 1), seg_end(b, k - 1)) {
        identity(w, seg_flags(k - 1))
    } else {
        layered(b, k - 1, w)
    }
}

/// Segments used by the first `k` are used by the first `k2`, `k <= k2`.
proof fn lemma_used_mono(b: BootInfo, k: int, k2: int, j: int)
    requires
        0 <= k <= k2,
        used_upto(b, k, j),
    ensures
        used_upto(b, k2, j),
    decreases k2 - k,
{
    if k < k2 {
        lemma_used_mono(b, k, k2 - 1, j);
    }
}

/// Two predicates that agree count alike.
proof fn lemma_count_same(n: int, f: spec_fn(int) -> bool, g: spec_fn(int) -> bool)
    requires
        forall|i: int| 0 <= i < n ==> #[trigger] f(i) == g(i),
    ensures
        count_where(n, f) == count_where(n, g),
{
    lemma_count_le(n, f, g, 0);
    lemma_count_le(n, g, f, 0);
}

/// `tables_drawn` composes.
proof fn lemma_drawn_trans(
    r0: Seq<usize>,
    a0: PageAllocator,
    r1: Seq<usize>,
    a1: PageAllocator,
    r2: Seq<usize>,
    a2: PageAllocator,
)
    requires
        r0.len() == ENTRIES_PER_TABLE,
        tables_drawn(r0, &a0, r1, &a1),
        tables_drawn(r1, &a1, r2, &a2),
    ensures
        tables_drawn(r0, &a0, r2, &a2),
{
    let pages0 = a0.pages();
    let pages1 = a1.pages();
    let pages2 = a2.pages();
    assert forall|x: int| 0 <= x < pages0.len() implies #[trigger] pages2[x] == pages0[x] || (pages0[x] == FREE
        && pages2[x] == TAKEN_LAST) by {
        assert(pages1[x] == pages0[x] || (pages0[x] == FREE && pages1[x] == TAKEN_LAST));
        assert(pages2[x] == pages1[x] || (pages1[x] == FREE && pages2[x] == TAKEN_LAST));
    }
    assert forall|x: int| 0 <= x < a0.bytes().len() implies #[trigger] a2.bytes()[x]
        == a0.bytes()[x] || a2.bytes()[x] == 0 by {
        assert(a1.bytes()[x] == a0.bytes()[x] || a1.bytes()[x] == 0);
        assert(a2.bytes()[x] == a1.bytes()[x] || a2.bytes()[x] == 0);
    }
    assert forall|j: int| 0 <= j < ENTRIES_PER_TABLE && entry_valid(r0[j]) implies #[trigger] r2[j]
        == r0[j] by {
        assert(r1[j] == r0[j]);
    }
    assert forall|j: int|
        0 <= j < ENTRIES_PER_TABLE && entry_valid(#[trigger] r2[j]) && !entry_valid(
            r0[j],
        ) implies 0 <= a2.index_of(entry_phys(r2[j]) as int) < pages2.len() && pages2[a2.index_of(
        entry_phys(r2[j]) as int)] == TAKEN_LAST by {
        if entry_valid(r1[j]) {
            assert(r2[j] == r1[j]);
            let x = a1.index_of(entry_phys(r1[j]) as int);
            assert(pages1[x] == TAKEN_LAST);
            assert(pages2[x] == pages1[x] || (pages1[x] == FREE && pages2[x] == TAKEN_LAST));
        }
    }
}

/// With segments `0..k` mapped and the allocator drawn on only for their
/// tables, running out of pages in segment `k` means the segments use more
/// level-1 regions than the heap has pages.
proof fn lemma_segment_exhausted(
    b: BootInfo,
    k: int,
    root: Seq<usize>,
    total: int,
    free: int,
)
    requires
        0 <= k < 6,
        root.len() == ENTRIES_PER_TABLE,
        forall|j: int| 0 <= j < ENTRIES_PER_TABLE ==> #[trigger] entry_valid(root[j]) == used_upto(b, k, j),
        free + valid_count(root) == total,
        free < tables_needed(
            root,
            seg_start(b, k) as int,
            range_pages(seg_start(b, k) as int, seg_end(b, k) as int),
        ),
    ensures
        total < regions_used(b),
{
    let n = ENTRIES_PER_TABLE as int;
    let v = |j: int| entry_valid(root[j]);
    let before = |j: int| used_upto(b, k, j);
    let needed = |j: int|
        range_uses(
            seg_start(b, k) as int,
            range_pages(seg_start(b, k) as int, seg_end(b, k) as int),
            j,
        ) && !entry_valid(root[j]);
    let after = |j: int| used_upto(b, k + 1, j);
    let all = |j: int| used_upto(b, 6, j);
    lemma_count_same(n, v, before);
    lemma_count_union(n, before, needed, after);
    assert forall|j: int| 0 <= j < n && #[trigger] after(j) implies all(j) by {
        lemma_used_mono(b, k + 1, 6, j);
    }
    lemma_count_le(n, after, all, 0);
}

/// After the first `k` segments are mapped onto the empty table `root0`
/// with the allocator `fresh` (all `total` pages free): the allocator was
/// drawn on only for level-0 tables, the valid root entries are those of the
/// regions the `k` segments use, and translation is theirs.
#[verifier::opaque]
pub open spec fn stage(
    b: BootInfo,
    k: int,
    root0: Seq<usize>,
    fresh: PageAllocator,
    total: int,
    root: PageTable,
    alloc: PageAllocator,
) -> bool {
    &&& root0.len() == ENTRIES_PER_TABLE
    &&& forall|j: int| 0 <= j < ENTRIES_PER_TABLE ==> !entry_valid(#[trigger] root0[j])
    &&& fresh.pages().len() == total
    &&& forall|i: int| 0 <= i < total ==> #[trigger] fresh.pages()[i] == FREE
    &&& free_count(fresh.pages()) == total
    &&& valid_count(root0) == 0
    &&& tables_drawn(root0, &fresh, root.root(), &alloc)
    &&& forall|j: int|
        0 <= j < ENTRIES_PER_TABLE ==> #[trigger] entry_valid(root.root()[j]) == used_upto(b, k, j)
    &&& forall|w: int|
        0 <= w < ADDRESS_SPACE_END ==> #[trigger] root.translation(w) == layered(b, k, w)
}

/// Mapping segment `k` in full moves `stage` from `k` to `k + 1`.
proof fn lemma_stage_step(
    b: BootInfo,
    k: int,
    root0: Seq<usize>,
    fresh: PageAllocator,
    total: int,
    t0: PageTable,
    a0: PageAllocator,
    t1: PageTable,
    a1: PageAllocator,
)
    requires
        0 <= k < 6,
        stage(b, k, root0, fresh, total, t0, a0),
        tables_drawn(t0.root(), &a0, t1.root(), &a1),
        forall|j: int|
            0 <= j < ENTRIES_PER_TABLE ==> #[trigger] entry_valid(t1.root()[j]) == (entry_valid(
                t0.root()[j],
            ) || seg_uses(b, k, j)),
        t1.maps_range_from(
            &t0,
            seg_start(b, k) as int,
            range_pages(seg_start(b, k) as int, seg_end(b, k) as int),
            seg_flags(k),
        ),
    ensures
        stage(b, k + 1, root0, fresh, total, t1, a1),
{
    reveal(stage);
    lemma_drawn_trans(root0, fresh, t0.root(), a0, t1.root(), a1);
    assert forall|w: int| 0 <= w < ADDRESS_SPACE_END implies #[trigger] t1.translation(w)
        == layered(b, k + 1, w) by {
        assert(t0.translation(w) == layered(b, k, w));
    }
}

/// Running out of pages in segment `k` means the segments use more level-1
/// regions than the heap has pages.
proof fn lemma_stage_exhausted(
    b: BootInfo,
    k: int,
    root0: Seq<usize>,
    fresh: PageAllocator,
    total: int,
    t0: PageTable,
    a0: PageAllocator,
    a1: PageAllocator,
    t1: PageTable,
)
    requires
        0 <= k < 6,
        stage(b, k, root0, fresh, total, t0, a0),
        tables_drawn(t0.root(), &a0, t1.root(), &a1),
        free_count(a0.pages()) < tables_needed(
            t0.root(),
            seg_start(b, k) as int,
            range_pages(seg_start(b, k) as int, seg_end(b, k) as int),
        ),
    ensures
        total < regions_used(b),
        a1.pages().len() == total,
        a1.heap_base() == fresh.heap_base(),
        a1.alloc_base() == fresh.alloc_base(),
{
    reveal(stage);
    lemma_segment_exhausted(b, k, t0.root(), total, free_count(a0.pages()) as int);
}

/// Once all six segments are mapped, the table and allocator are as
/// `init_memory` states.
proof fn lemma_stage_final(
    b: BootInfo,
    root0: Seq<usize>,
    fresh: PageAllocator,
    total: int,
    t: PageTable,
    a: PageAllocator,
)
    requires
        stage(b, 6, root0, fresh, total, t, a),
    ensures
        forall|w: int|
            0 <= w < ADDRESS_SPACE_END ==> #[trigger] t.translation(w) == kernel_translation(b, w),
        forall|j: int|
            0 <= j < ENTRIES_PER_TABLE ==> #[trigger] entry_valid(t.root()[j]) == used_upto(b, 6, j),
        free_count(a.pages()) + regions_used(b) == total,
        a.pages().len() == total,
        a.heap_base() == fresh.heap_base(),
        a.alloc_base() == fresh.alloc_base(),
        forall|i: int| 0 <= i < a.pages().len() ==> #[trigger] a.pages()[i] == FREE || a.pages()[i]
            == TAKEN_LAST,
        forall|j: int|
            0 <= j < ENTRIES_PER_TABLE && entry_valid(#[trigger] t.root()[j]) ==> {
                let x = a.index_of(entry_phys(t.root()[j]) as int);
                &&& 0 <= x < a.pages().len()
                &&& a.pages()[x] == TAKEN_LAST
            },
{
    reveal(stage);
    assert forall|w: int| 0 <= w < ADDRESS_SPACE_END implies #[trigger] t.translation(w)
        == kernel_translation(b, w) by {
        lemma_layered_six(b, w);
    }
    let v = |j: int| entry_valid(t.root()[j]);
    let u = |j: int| used_upto(b, 6, j);
    lemma_count_same(ENTRIES_PER_TABLE as int, v, u);
    assert forall|i: int| 0 <= i < a.pages().len() implies #[trigger] a.pages()[i] == FREE
        || a.pages()[i] == TAKEN_LAST by {
        assert(fresh.pages()[i] == FREE);
    }
    assert forall|j: int| 0 <= j < ENTRIES_PER_TABLE && entry_valid(#[trigger] t.root()[j]) implies {
        let x = a.index_of(entry_phys(t.root()[j]) as int);
        &&& 0 <= x < a.pages().len()
        &&& a.pages()[x] == TAKEN_LAST
    } by {
        assert(!entry_valid(root0[j]));
    }
}

/// Hands the heap to `alloc` and maps every kernel segment one to one into
/// the empty table `root`, code read/execute and everything else
/// read/write. A segment that does not start on a page boundary is refused
/// before anything changes. The mapping needs one level-0 table, so one
/// heap page, per level-1 region the segments use; it succeeds exactly when
/// the heap has that many pages, and then the heap's pages are free but for
/// one taken page under each valid root entry.
pub fn init_memory(alloc: &mut PageAllocator, root: &mut PageTable, boot_info: &BootInfo) -> (r:
    Result<(), MapError>)
    requires
        old(alloc).wf(),
        old(root).wf(),
        forall|j: int| 0 <= j < ENTRIES_PER_TABLE ==> #[trigger] old(root).root()[j] == 0,
        boot_info_ok(*boot_info),
    ensures
        final(alloc).wf(),
        final(root).wf(),
        r == Err::<(), MapError>(MapError::Misaligned) <==> !segments_aligned(*boot_info),
        r == Err::<(), MapError>(MapError::Misaligned) ==> *final(alloc) == *old(alloc)
            && *final(root) == *old(root),
        r != Err::<(), MapError>(MapError::Misaligned) ==> {
            &&& final(alloc).heap_base() == boot_info.heap_start
            &&& final(alloc).alloc_base() == alloc_base_of(
                boot_info.heap_start as int,
                boot_info.heap_end as int,
            )
            &&& final(alloc).pages().len() == page_count(boot_info.heap_end - boot_info.heap_start)
        },
        r == Err::<(), MapError>(MapError::Exhausted) <==> segments_aligned(*boot_info)
            && page_count(boot_info.heap_end - boot_info.heap_start) < regions_used(*boot_info),
        r == Err::<(), MapError>(MapError::Exhausted) ==> !has_free_run(final(alloc).pages(), 1),
        r is Ok ==> {
            &&& forall|w: int|
                0 <= w < ADDRESS_SPACE_END ==> #[trigger] final(root).translation(w)
                    == kernel_translation(*boot_info, w)
            &&& forall|j: int|
                0 <= j < ENTRIES_PER_TABLE ==> #[trigger] entry_valid(final(root).root()[j])
                    == used_upto(*boot_info, 6, j)
            &&& free_count(final(alloc).pages()) + regions_used(*boot_info) == page_count(
                boot_info.heap_end - boot_info.heap_start,
            )
            &&& forall|i: int|
                0 <= i < final(alloc).pages().len() ==> #[trigger] final(alloc).pages()[i] == FREE
                    || final(alloc).pages()[i] == TAKEN_LAST
            &&& forall|j: int|
                0 <= j < ENTRIES_PER_TABLE && entry_valid(#[trigger] final(root).root()[j]) ==> {
                    let x = final(alloc).index_of(entry_phys(final(root).root()[j]) as int);
                    &&& 0 <= x < final(alloc).pages().len()
                    &&& final(alloc).pages()[x] == TAKEN_LAST
                }
        },
{
    let b = *boot_info;
    if b.text_start % PAGE_SIZE != 0 || b.rodata_start % PAGE_SIZE != 0 || b.data_start % PAGE_SIZE
        != 0 || b.bss_start % PAGE_SIZE != 0 || b.stack_start % PAGE_SIZE != 0 || b.heap_start
        % PAGE_SIZE != 0 {
        return Err(MapError::Misaligned);
    }
    alloc.init(b.heap_start, b.heap_end);
    let ghost fresh = *alloc;
    let ghost root0 = old(root).root();
    let ghost total = page_count(b.heap_end - b.heap_start);
    proof {
        lemma_zero_entry();
        let all_free = |i: int| fresh.pages()[i] == FREE;
        let yes = |i: int| true;
        lemma_count_same(total, all_free, yes);
        lemma_count_all(total);
        let v0 = |j: int| entry_valid(root0[j]);
        let no = |j: int| false;
        lemma_count_same(ENTRIES_PER_TABLE as int, v0, no);
        crate::page::lemma_count_zero(ENTRIES_PER_TABLE as int, no);
        reveal(stage);
        assert(stage(b, 0, root0, fresh, total, *root, *alloc));
    }
    let code = EntryFlags::Read.value() | EntryFlags::Execute.value();
    let data = EntryFlags::Read.value() | EntryFlags::Write.value();
    assert(2usize | 8usize == 10 && 2usize | 4usize == 6) by (bit_vector);
    let mut k: usize = 0;
    while k < 6
        invariant
            k <= 6,
            boot_info_ok(b),
            segments_aligned(b),
            b == *boot_info,
            code == CODE_FLAGS,
            data == DATA_FLAGS,
            alloc.wf(),
            root.wf(),
            fresh.heap_base() == b.heap_start,
            fresh.alloc_base() == alloc_base_of(b.heap_start as int, b.heap_end as int),
            total == page_count(b.heap_end - b.heap_start),
            stage(b, k as int, root0, fresh, total, *root, *alloc),
        decreases 6 - k,
    {
        let (start, end, flags) = segment(&b, k, code, data);
        let ghost a_before = *alloc;
        let ghost t_before = *root;
        proof {
            assert(seg_start(b, k as int) % PAGE_SIZE == 0);
        }
        match root.map_kernel_range(alloc, VirtualAddress(start), VirtualAddress(end), flags) {
            Ok(()) => {},
            Err(e) => {
                proof {
                    assert(e == MapError::Exhausted);
                    lemma_stage_exhausted(
                        b,
                        k as int,
                        root0,
                        fresh,
                        total,
                        t_before,
                        a_before,
                        *alloc,
                        *root,
                    );
                }
                return Err(e);
            },
        }
        proof {
            lemma_stage_step(b, k as int, root0, fresh, total, t_before, a_before, *root, *alloc);
        }
        k += 1;
    }
    proof {
        lemma_stage_final(b, root0, fresh, total, *root, *alloc);
    }
    Ok(())
}

/// Every index of `0..n` counts.
proof fn lemma_count_all(n: int)
    requires
        n >= 0,
    ensures
        count_where(n, |i: int| true) == n,
    decreases n,
{
    if n > 0 {
        lemma_count_all(n - 1);
    }
}

/// Six layers are the kernel's translation.
proof fn lemma_layered_six(b: BootInfo, w: int)
    ensures
        layered(b, 6, w) == kernel_translation(b, w),
{
    reveal_with_fuel(layered, 7);
}

/// Start, end and permission bits of segment `m`.
fn segment(b: &BootInfo, m: usize, code: usize, data: usize) -> (r: (usize, usize, usize))
    requires
        m < 6,
        code == CODE_FLAGS,
        data == DATA_FLAGS,
    ensures
        r == (seg_start(*b, m as int), seg_end(*b, m as int), seg_flags(m as int)),
{
    if m == 0 {
        (b.text_start, b.text_end, code)
    } else if m == 1 {
        (b.rodata_start, b.rodata_end, code)
    } else if m == 2 {
        (b.data_start, b.data_end, data)
    } else if m == 3 {
        (b.bss_start, b.bss_end, data)
    } else if m == 4 {
        (b.stack_start, b.stack_end, data)
    } else {
        (b.heap_start, b.heap_end, data)
    }
}

} // verus!
