//! SV32 two-level page table: a root table of 1024 entries whose valid
//! entries lead to level-0 tables of 1024 entries, each on a page drawn from
//! the page allocator.

use vstd::prelude::*;

use crate::page::{
    align_val, bytes_cleared, count_where, free_count, free_outcome, has_free_run,
    lemma_count_le, lemma_count_single, lemma_count_union, lemma_count_zero, lemma_free_page,
    lemma_take_one, page_index, pages_grown, AllocError, PageAllocator, ADDRESS_SPACE_END,
    PAGE_SIZE, TAKEN_LAST,
};

verus! {

/// Entries in one table (2^10).
pub const ENTRIES_PER_TABLE: usize = 1024;

/// First address past the 34-bit physical address space of SV32.
pub const PHYSICAL_SPACE_END: u64 = 0x4_0000_0000;

/// An address in the virtual address space.
pub struct VirtualAddress(pub usize);

/// An address in the physical address space.
pub struct PhysicalAddress(u64);

/// Level-1 index of a virtual address: bits 22 to 31.
pub open spec fn vpn1_of(v: int) -> int {
    (v / 0x400000) % 1024
}

/// Level-0 index of a virtual address: bits 12 to 21.
pub open spec fn vpn0_of(v: int) -> int {
    (v / 0x1000) % 1024
}

/// The entry's valid bit is set.
pub open spec fn entry_valid(e: usize) -> bool {
    e & 1 != 0
}

/// The entry has one of read, write or execute set, so it ends translation.
pub open spec fn entry_leaf(e: usize) -> bool {
    e & 0xe != 0
}

/// The physical address an entry's page-frame number points at.
pub open spec fn entry_phys(e: usize) -> u64 {
    ((e & 0xfffffc00) as u64) << 2
}

/// The valid and permission bits of an entry.
pub open spec fn entry_flags(e: usize) -> usize {
    e & 0x3ff
}

/// The page-frame number field of an entry for physical address `p`.
pub open spec fn ppn_field(p: u64) -> u32 {
    ((p & 0x3fffff000) >> 2) as u32
}

/// The leaf entry mapping to physical page `p` with `flags`.
pub open spec fn leaf_entry(p: u64, flags: usize) -> usize {
    ppn_field(p) as usize | flags | 1
}

/// The branch entry leading to the table on the page at `table`.
pub open spec fn branch_entry(table: usize) -> usize {
    ((table >> 12) << 10) | 1
}

/// A leaf entry gives back the physical page and flags (with the valid bit)
/// it was made from.
proof fn lemma_leaf_entry(p: u64, flags: usize)
    requires
        p % 4096 == 0,
        p < PHYSICAL_SPACE_END,
        flags < 256,
    ensures
        entry_valid(leaf_entry(p, flags)),
        entry_phys(leaf_entry(p, flags)) == p,
        entry_flags(leaf_entry(p, flags)) == flags | 1,
{
    assert({
        let e: usize = ((((p & 0x3fffff000) >> 2) as u32) as usize) | flags | 1;
        &&& e & 1 != 0
        &&& (((e & 0xfffffc00) as u64) << 2) == p
        &&& e & 0x3ff == flags | 1
    }) by (bit_vector)
        requires
            p % 4096 == 0,
            p < 0x4_0000_0000,
            flags < 256,
    ;
}

/// A branch entry is valid, no leaf, and leads back to its table's page.
proof fn lemma_branch_entry(table: usize)
    requires
        table % 4096 == 0,
        table < ADDRESS_SPACE_END,
    ensures
        entry_valid(branch_entry(table)),
        !entry_leaf(branch_entry(table)),
        entry_phys(branch_entry(table)) == table as u64,
{
    assert({
        let e: usize = ((table >> 12) << 10) | 1;
        &&& e & 1 != 0
        &&& e & 0xe == 0
        &&& (((e & 0xfffffc00) as u64) << 2) == table as u64
    }) by (bit_vector)
        requires
            table % 4096 == 0,
            table < 0x1_0000_0000,
    ;
}

/// An empty entry is not valid.
pub proof fn lemma_zero_entry()
    ensures
        !entry_valid(0),
{
    assert(0usize & 1 == 0) by (bit_vector);
}

impl VirtualAddress {
    fn as_usize(&self) -> (r: usize)
        ensures
            r == self.0,
    {
        self.0
    }

    fn vpn1(&self) -> (r: usize)
        ensures
            r == vpn1_of(self.0 as int),
            r < ENTRIES_PER_TABLE,
    {
        let v = self.0;
        assert((v >> 22) & 0x3FF == (v / 0x400000) % 1024 && (v >> 22) & 0x3FF < 1024)
            by (bit_vector);
        (v >> 22) & 0x3FF
    }

    fn vpn0(&self) -> (r: usize)
        ensures
            r == vpn0_of(self.0 as int),
            r < ENTRIES_PER_TABLE,
    {
        let v = self.0;
        assert((v >> 12) & 0x3FF == (v / 0x1000) % 1024 && (v >> 12) & 0x3FF < 1024)
            by (bit_vector);
        (v >> 12) & 0x3FF
    }

    fn is_aligned(&self) -> (r: bool)
        ensures
            r == (self.0 % PAGE_SIZE == 0),
    {
        self.0 % PAGE_SIZE == 0
    }

    /// The address `offset` bytes further on.
    pub fn with_offset(&self, offset: usize) -> (r: VirtualAddress)
        requires
            self.0 + offset <= usize::MAX,
        ensures
            r.0 == self.0 + offset,
    {
        VirtualAddress(offset + self.0)
    }
}

impl PhysicalAddress {
    /// The address as a number.
    pub closed spec fn value(&self) -> u64 {
        self.0
    }

    /// The physical address `addr`.
    pub fn new(addr: u64) -> (r: PhysicalAddress)
        ensures
            r.value() == addr,
    {
        PhysicalAddress(addr)
    }

    pub fn as_u64(&self) -> (r: u64)
        ensures
            r == self.value(),
    {
        self.0
    }

    fn to_ppn(&self) -> (r: u32)
        ensures
            r == ppn_field(self.value()),
    {
        let to_34 = self.0 & 0x3fffff000;
        (to_34 >> 2) as u32
    }

    fn is_aligned(&self) -> (r: bool)
        ensures
            r == (self.value() % 4096 == 0),
    {
        self.0 % PAGE_SIZE as u64 == 0
    }

    /// The address `offset` bytes further on.
    pub fn with_offset(&self, offset: u64) -> (r: PhysicalAddress)
        requires
            self.value() + offset <= u64::MAX,
        ensures
            r.value() == self.value() + offset,
    {
        PhysicalAddress(offset + self.0)
    }
}

/// The bits of a page-table entry.
pub enum EntryFlags {
    Empty,
    Valid,
    Read,
    Write,
    Execute,
    User,
    Global,
    Accessed,
    Dirty,
}

impl EntryFlags {
    pub open spec fn bits(self) -> usize {
        match self {
            EntryFlags::Empty => 0,
            EntryFlags::Valid => 1,
            EntryFlags::Read => 2,
            EntryFlags::Write => 4,
            EntryFlags::Execute => 8,
            EntryFlags::User => 16,
            EntryFlags::Global => 32,
            EntryFlags::Accessed => 64,
            EntryFlags::Dirty => 128,
        }
    }

    /// The bit of this flag in an entry.
    pub fn value(self) -> (r: usize)
        ensures
            r == self.bits(),
    {
        match self {
            EntryFlags::Empty => 0,
            EntryFlags::Valid => 1,
            EntryFlags::Read => 2,
            EntryFlags::Write => 4,
            EntryFlags::Execute => 8,
            EntryFlags::User => 16,
            EntryFlags::Global => 32,
            EntryFlags::Accessed => 64,
            EntryFlags::Dirty => 128,
        }
    }
}

/// One page-table entry: valid bit, permission bits and page-frame number.
#[derive(Clone, Copy)]
struct Entry(usize);

impl Entry {
    fn is_valid(&self) -> (r: bool)
        ensures
            r == entry_valid(self.0),
    {
        self.0 & EntryFlags::Valid.value() != 0
    }

    fn get_phys_address(&self) -> (r: PhysicalAddress)
        ensures
            r.value() == entry_phys(self.0),
    {
        PhysicalAddress(((self.0 & 0xfffffc00) as u64) << 2)
    }

    fn is_leaf(&self) -> (r: bool)
        ensures
            r == entry_leaf(self.0),
    {
        let rwx = EntryFlags::Read.value() | EntryFlags::Write.value() | EntryFlags::Execute.value();
        assert(2usize | 4usize | 8usize == 0xe) by (bit_vector);
        self.0 & rwx != 0
    }

    fn is_branch(&self) -> (r: bool)
        ensures
            r == !entry_leaf(self.0),
    {
        !self.is_leaf()
    }
}

/// One valid entry as the diagnostic listing shows it.
#[derive(Debug, Clone, Copy, PartialEq, Eq, Structural)]
pub struct EntryLine {
    /// The entry sits in a level-0 table under the root entry listed before it.
    pub nested: bool,
    /// Index of the entry in its table.
    pub index: usize,
    /// The raw entry.
    pub value: usize,
    /// The physical address its page-frame number points at.
    pub phys: u64,
    /// The entry ends translation.
    pub leaf: bool,
}

/// The line for entry `e` at `index`.
pub open spec fn line_of(nested: bool, index: int, e: usize) -> EntryLine {
    EntryLine { nested: nested, index: index as usize, value: e, phys: entry_phys(e), leaf: entry_leaf(e) }
}

/// The lines for the valid entries among the first `n` of level-0 table `t`.
pub open spec fn table_lines(t: Seq<usize>, n: int) -> Seq<EntryLine>
    decreases n,
{
    if n <= 0 {
        Seq::empty()
    } else {
        table_lines(t, n - 1) + if entry_valid(t[n - 1]) {
            seq![line_of(true, n - 1, t[n - 1])]
        } else {
            Seq::empty()
        }
    }
}

/// Why a range could not be mapped.
#[derive(Debug, Clone, Copy, PartialEq, Eq, Structural)]
pub enum MapError {
    /// The start of the range is not on a page boundary.
    Misaligned,
    /// No free page was left for a level-0 table.
    Exhausted,
}

/// The allocator's descriptors after the pages of the first `n` root
/// entries that lead to level-0 tables are given back in turn; a page the
/// allocator refuses stays as it is.
pub open spec fn unmapped_pages(pages: Seq<u8>, base: int, root: Seq<usize>, n: int) -> Seq<u8>
    decreases n,
{
    if n <= 0 {
        pages
    } else {
        let prev = unmapped_pages(pages, base, root, n - 1);
        let e = root[n - 1];
        if entry_valid(e) && !entry_leaf(e) {
            match free_outcome(prev, page_index(base, entry_phys(e) as int)) {
                Ok(after) => after,
                Err(_) => prev,
            }
        } else {
            prev
        }
    }
}

/// Address of page `k` of a range that starts at `start`.
pub open spec fn page_at(start: int, k: int) -> int {
    start + k * PAGE_SIZE
}

/// Some of the first `n` pages from `start` on has level-1 index `j`.
pub open spec fn range_uses(start: int, n: int, j: int) -> bool {
    exists|k: int| 0 <= k < n && #[trigger] vpn1_of(page_at(start, k)) == j
}

/// Number of valid entries in a root table.
pub open spec fn valid_count(root: Seq<usize>) -> nat {
    count_where(ENTRIES_PER_TABLE as int, |j: int| entry_valid(root[j]))
}

/// Number of level-0 tables that mapping `n` pages from `start` on adds to
/// a root table `root`: the level-1 indices the pages use whose root entry
/// is not valid yet.
pub open spec fn tables_needed(root: Seq<usize>, start: int, n: int) -> nat {
    count_where(
        ENTRIES_PER_TABLE as int,
        |j: int| range_uses(start, n, j) && !entry_valid(root[j]),
    )
}

/// What mapping a range keeps of the allocator and the root table:
/// the free pages and valid root entries together stay as many, pages are
/// only taken, bytes only cleared, valid entries stay, and each new one
/// leads to a page taken for it.
pub open spec fn tables_drawn(
    root0: Seq<usize>,
    alloc0: &PageAllocator,
    root: Seq<usize>,
    alloc: &PageAllocator,
) -> bool {
    &&& root.len() == root0.len()
    &&& free_count(alloc.pages()) + valid_count(root) == free_count(alloc0.pages()) + valid_count(
        root0,
    )
    &&& pages_grown(alloc0.pages(), alloc.pages())
    &&& bytes_cleared(alloc0.bytes(), alloc.bytes())
    &&& alloc.heap_base() == alloc0.heap_base()
    &&& alloc.alloc_base() == alloc0.alloc_base()
    &&& forall|j: int|
        0 <= j < ENTRIES_PER_TABLE && entry_valid(root0[j]) ==> #[trigger] root[j] == root0[j]
    &&& forall|j: int|
        0 <= j < ENTRIES_PER_TABLE && entry_valid(#[trigger] root[j]) && !entry_valid(root0[j])
            ==> {
            &&& 0 <= alloc.index_of(entry_phys(root[j]) as int) < alloc.pages().len()
            &&& alloc.pages()[alloc.index_of(entry_phys(root[j]) as int)] == TAKEN_LAST
        }
}

/// The pages of a range one page longer use the level-1 index of that page
/// besides the ones they used.
proof fn lemma_range_uses_step(start: int, i: int, j: int)
    requires
        0 <= i,
    ensures
        range_uses(start, i + 1, j) == (range_uses(start, i, j) || j == vpn1_of(page_at(start, i))),
{
    if range_uses(start, i + 1, j) && j != vpn1_of(page_at(start, i)) {
        let k = choose|k: int| 0 <= k < i + 1 && #[trigger] vpn1_of(page_at(start, k)) == j;
        assert(k < i);
    }
}

/// Mapping the next page of a range keeps `tables_drawn`, and the valid root
/// entries stay those that were valid or that the range has used.
proof fn lemma_range_step(
    root0: Seq<usize>,
    alloc0: PageAllocator,
    root: Seq<usize>,
    alloc: PageAllocator,
    root1: Seq<usize>,
    alloc1: PageAllocator,
    start: int,
    i: int,
)
    requires
        0 <= i,
        alloc.wf(),
        root0.len() == ENTRIES_PER_TABLE,
        root.len() == ENTRIES_PER_TABLE,
        tables_drawn(root0, &alloc0, root, &alloc),
        forall|j: int|
            0 <= j < ENTRIES_PER_TABLE ==> #[trigger] entry_valid(root[j]) == (entry_valid(root0[j])
                || range_uses(start, i, j)),
        0 <= vpn1_of(page_at(start, i)) < ENTRIES_PER_TABLE,
        entry_valid(root[vpn1_of(page_at(start, i))]) ==> alloc1 == alloc && root1 == root,
        !entry_valid(root[vpn1_of(page_at(start, i))]) ==> {
            let v1 = vpn1_of(page_at(start, i));
            &&& alloc.took_run(&alloc1, 1, entry_phys(root1[v1]) as int)
            &&& root1 == root.update(v1, root1[v1])
            &&& root1[v1] == branch_entry(entry_phys(root1[v1]) as usize)
            &&& bytes_cleared(alloc.bytes(), alloc1.bytes())
        },
    ensures
        tables_drawn(root0, &alloc0, root1, &alloc1),
        forall|j: int|
            0 <= j < ENTRIES_PER_TABLE ==> #[trigger] entry_valid(root1[j]) == (entry_valid(root0[j])
                || range_uses(start, i + 1, j)),
{
    let v1 = vpn1_of(page_at(start, i));
    assert forall|j: int| 0 <= j < ENTRIES_PER_TABLE implies #[trigger] entry_valid(root1[j]) == (
    entry_valid(root0[j]) || range_uses(start, i + 1, j)) by {
        lemma_range_uses_step(start, i, j);
        if j == v1 {
            lemma_branch_valid(entry_phys(root1[v1]) as usize);
        }
    }
    if !entry_valid(root[v1]) {
        let idx = alloc.index_of(entry_phys(root1[v1]) as int);
        let p = alloc.pages();
        let pages1 = alloc1.pages();
        lemma_take_one(p, idx);
        lemma_branch_valid(entry_phys(root1[v1]) as usize);
        let f = |j: int| entry_valid(root[j]);
        let g = |j: int| j == v1;
        let h = |j: int| entry_valid(root1[j]);
        lemma_count_union(ENTRIES_PER_TABLE as int, f, g, h);
        lemma_count_single(ENTRIES_PER_TABLE as int, v1);
        assert(p[idx] == crate::page::FREE);
        assert forall|x: int| 0 <= x < alloc0.pages().len() implies #[trigger] pages1[x]
            == alloc0.pages()[x] || (alloc0.pages()[x] == crate::page::FREE && pages1[x] == TAKEN_LAST) by {
            assert(pages1[x] == p[x] || x == idx);
        }
        assert forall|j: int|
            0 <= j < ENTRIES_PER_TABLE && entry_valid(#[trigger] root1[j]) && !entry_valid(
                root0[j],
            ) implies 0 <= alloc1.index_of(entry_phys(root1[j]) as int) < pages1.len() && pages1[alloc1.index_of(entry_phys(root1[j]) as int)] == TAKEN_LAST by {
            assert(alloc1.index_of(entry_phys(root1[j]) as int) == alloc.index_of(
                entry_phys(root1[j]) as int,
            ));
            if j == v1 {
                assert(pages1[idx] == TAKEN_LAST);
            } else {
                let x = alloc.index_of(entry_phys(root[j]) as int);
                assert(root1[j] == root[j]);
                assert(p[x] == TAKEN_LAST);
                assert(x != idx);
            }
        }
        assert forall|j: int|
            0 <= j < ENTRIES_PER_TABLE && entry_valid(root0[j]) implies #[trigger] root1[j]
            == root0[j] by {
            assert(entry_valid(root[j]));
        }
        assert forall|x: int| 0 <= x < alloc0.bytes().len() implies #[trigger] alloc1.bytes()[x]
            == alloc0.bytes()[x] || alloc1.bytes()[x] == 0 by {
            assert(alloc.bytes()[x] == alloc0.bytes()[x] || alloc.bytes()[x] == 0);
        }
    }
}

/// A range that stops at page `i` for want of a free page needed more
/// tables than there were free pages.
proof fn lemma_range_exhausted(
    root0: Seq<usize>,
    alloc0: PageAllocator,
    root: Seq<usize>,
    alloc: PageAllocator,
    start: int,
    i: int,
    n: int,
)
    requires
        0 <= i < n,
        root0.len() == ENTRIES_PER_TABLE,
        tables_drawn(root0, &alloc0, root, &alloc),
        forall|j: int|
            0 <= j < ENTRIES_PER_TABLE ==> #[trigger] entry_valid(root[j]) == (entry_valid(root0[j])
                || range_uses(start, i, j)),
        0 <= vpn1_of(page_at(start, i)) < ENTRIES_PER_TABLE,
        !entry_valid(root[vpn1_of(page_at(start, i))]),
        !has_free_run(alloc.pages(), 1),
    ensures
        free_count(alloc0.pages()) < tables_needed(root0, start, n),
{
    let v1 = vpn1_of(page_at(start, i));
    lemma_free_page(alloc.pages());
    let f = |j: int| entry_valid(root0[j]);
    let g = |j: int| range_uses(start, i, j) && !entry_valid(root0[j]);
    let h = |j: int| entry_valid(root[j]);
    lemma_count_union(ENTRIES_PER_TABLE as int, f, g, h);
    let big = |j: int| range_uses(start, n, j) && !entry_valid(root0[j]);
    assert forall|j: int| 0 <= j < ENTRIES_PER_TABLE && #[trigger] g(j) implies big(j) by {
        if range_uses(start, i, j) {
            let k = choose|k: int| 0 <= k < i && #[trigger] vpn1_of(page_at(start, k)) == j;
            assert(vpn1_of(page_at(start, k)) == j);
        }
    }
    assert(vpn1_of(page_at(start, i)) == v1);
    lemma_count_le(ENTRIES_PER_TABLE as int, g, big, v1);
}

/// A branch entry is valid.
proof fn lemma_branch_valid(table: usize)
    ensures
        entry_valid(branch_entry(table)),
{
    assert((((table >> 12) << 10) | 1usize) & 1usize != 0) by (bit_vector);
}

/// Number of pages from `start` up to `end` rounded up to a page boundary.
pub open spec fn range_pages(start: int, end: int) -> int {
    (end - start + PAGE_SIZE - 1) / PAGE_SIZE as int
}

/// Two addresses of the 32-bit space share both table indices exactly when
/// they lie in the same page.
proof fn lemma_same_indices(w: u64, a: u64)
    requires
        w < 0x1_0000_0000,
        a < 0x1_0000_0000,
    ensures
        (vpn1_of(w as int) == vpn1_of(a as int) && vpn0_of(w as int) == vpn0_of(a as int)) <==> (w
            / 4096 == a / 4096),
{
    assert((((w / 0x400000) % 1024 == (a / 0x400000) % 1024) && ((w / 0x1000) % 1024 == (a
        / 0x1000) % 1024)) <==> (w / 4096 == a / 4096)) by (bit_vector)
        requires
            w < 0x1_0000_0000,
            a < 0x1_0000_0000,
    ;
}

/// Mapping the page after a mapped range extends the range by that page.
proof fn lemma_extend_range(
    before: PageTable,
    mid: PageTable,
    after: PageTable,
    start: int,
    i: int,
    flags: usize,
)
    requires
        0 <= i,
        0 <= start,
        start % 4096 == 0,
        start + (i + 1) * 4096 <= ADDRESS_SPACE_END,
        mid.maps_range_from(&before, start, i, flags),
        after.translation(start + i * 4096) == Some(((start + i * 4096) as u64, flags | 1)),
        forall|w: int|
            (vpn1_of(w) != vpn1_of(start + i * 4096) || vpn0_of(w) != vpn0_of(start + i * 4096))
                && 0 <= w ==> #[trigger] after.translation(w) == mid.translation(w),
    ensures
        after.maps_range_from(&before, start, i + 1, flags),
{
    let addr = start + i * 4096;
    assert(addr < ADDRESS_SPACE_END) by (nonlinear_arith)
        requires
            start + (i + 1) * 4096 <= ADDRESS_SPACE_END,
            addr == start + i * 4096,
    ;
    vstd::arithmetic::div_mod::lemma_mod_multiples_basic(i, 4096);
    vstd::arithmetic::div_mod::lemma_mod_adds(start, i * 4096, 4096);
    vstd::arithmetic::div_mod::lemma_fundamental_div_mod(addr, 4096);
    assert forall|w: int| 0 <= w < ADDRESS_SPACE_END implies #[trigger] after.translation(w) == if start
        <= w < start + (i + 1) * PAGE_SIZE {
        Some((((w / PAGE_SIZE as int) * PAGE_SIZE) as u64, flags | 1))
    } else {
        before.translation(w)
    } by {
        lemma_same_indices(w as u64, addr as u64);
        vstd::arithmetic::div_mod::lemma_fundamental_div_mod(w, 4096);
        if w / 4096 == addr / 4096 {
            assert(w / 4096 * 4096 == addr);
            assert(start + i * 4096 <= w < start + (i + 1) * 4096) by (nonlinear_arith)
                requires
                    w / 4096 == addr / 4096,
                    addr == start + i * 4096,
                    addr % 4096 == 0,
                    w == 4096 * (w / 4096) + w % 4096,
                    0 <= w % 4096 < 4096,
                    addr == 4096 * (addr / 4096),
            ;
        } else {
            assert(!(addr <= w < addr + 4096)) by (nonlinear_arith)
                requires
                    w / 4096 != addr / 4096,
                    addr % 4096 == 0,
                    w == 4096 * (w / 4096) + w % 4096,
                    0 <= w % 4096 < 4096,
                    addr == 4096 * (addr / 4096),
            ;
            assert(start + (i + 1) * 4096 == addr + 4096);
        }
    }
}

/// The root table of an SV32 translation, with the level-0 tables its
/// valid entries lead to, kept by root index.
pub struct PageTable {
    entries: Vec<Entry>,
    tables: Vec<Vec<Entry>>,
}

impl PageTable {
    /// The root entries.
    pub closed spec fn root(&self) -> Seq<usize> {
        self.entries@.map_values(|e: Entry| e.0)
    }

    /// The level-0 table under root entry `i`; empty while that entry is not valid.
    pub closed spec fn table(&self, i: int) -> Seq<usize> {
        self.tables@[i]@.map_values(|e: Entry| e.0)
    }

    pub open spec fn wf(&self) -> bool {
        &&& self.shape_ok()
        &&& self.root().len() == ENTRIES_PER_TABLE
        &&& forall|i: int|
            0 <= i < ENTRIES_PER_TABLE ==> {
                &&& entry_valid(#[trigger] self.root()[i]) ==> {
                    &&& !entry_leaf(self.root()[i])
                    &&& entry_phys(self.root()[i]) < ADDRESS_SPACE_END
                    &&& self.table(i).len() == ENTRIES_PER_TABLE
                }
                &&& !entry_valid(self.root()[i]) ==> self.table(i).len() == 0
            }
    }

    /// There is one slot for a level-0 table per root entry.
    pub closed spec fn shape_ok(&self) -> bool {
        self.tables@.len() == self.entries@.len()
    }

    /// What virtual address `v` translates to: the physical page and the
    /// flags (with the valid bit) of its leaf entry.
    pub open spec fn translation(&self, v: int) -> Option<(u64, usize)> {
        let root_entry = self.root()[vpn1_of(v)];
        let leaf = self.table(vpn1_of(v))[vpn0_of(v)];
        if entry_valid(root_entry) && entry_valid(leaf) {
            Some((entry_phys(leaf), entry_flags(leaf)))
        } else {
            None
        }
    }

    /// `self` is `before` with the `n` pages from `start` on mapped each to
    /// the physical page at the same address with `flags`, and nothing else
    /// in the 32-bit space changed.
    pub open spec fn maps_range_from(&self, before: &PageTable, start: int, n: int, flags: usize) -> bool {
        forall|w: int|
            0 <= w < ADDRESS_SPACE_END ==> #[trigger] self.translation(w) == if start <= w < start
                + n * PAGE_SIZE {
                Some((((w / PAGE_SIZE as int) * PAGE_SIZE) as u64, flags | 1))
            } else {
                before.translation(w)
            }
    }

    /// The lines for the valid entries among the first `n` root entries,
    /// each followed, when `full` and it leads to a level-0 table, by the
    /// lines of that table.
    pub open spec fn root_lines(&self, full: bool, n: int) -> Seq<EntryLine>
        decreases n,
    {
        if n <= 0 {
            Seq::empty()
        } else {
            self.root_lines(full, n - 1) + if entry_valid(self.root()[n - 1]) {
                seq![line_of(false, n - 1, self.root()[n - 1])] + if full && !entry_leaf(
                    self.root()[n - 1],
                ) {
                    table_lines(self.table(n - 1), ENTRIES_PER_TABLE as int)
                } else {
                    Seq::empty()
                }
            } else {
                Seq::empty()
            }
        }
    }

    /// A table that maps nothing.
    pub fn new() -> (r: Self)
        ensures
            r.wf(),
            forall|i: int| 0 <= i < ENTRIES_PER_TABLE ==> #[trigger] r.root()[i] == 0,
            forall|v: int| 0 <= v ==> #[trigger] r.translation(v) is None,
    {
        let mut entries: Vec<Entry> = Vec::new();
        let mut tables: Vec<Vec<Entry>> = Vec::new();
        let mut i: usize = 0;
        while i < ENTRIES_PER_TABLE
            invariant
                i <= ENTRIES_PER_TABLE,
                entries@.len() == i,
                tables@.len() == i,
                forall|k: int| 0 <= k < i ==> (#[trigger] entries@[k]).0 == 0,
                forall|k: int| 0 <= k < i ==> (#[trigger] tables@[k])@.len() == 0,
            decreases ENTRIES_PER_TABLE - i,
        {
            entries.push(Entry(0));
            tables.push(Vec::new());
            i += 1;
        }
        let r = PageTable { entries, tables };
        proof {
            lemma_zero_entry();
            assert forall|i: int| 0 <= i < ENTRIES_PER_TABLE implies #[trigger] r.root()[i] == 0 by {
                assert(r.root()[i] == r.entries@[i].0);
            }
            assert forall|v: int| 0 <= v implies #[trigger] r.translation(v) is None by {
                assert(r.root()[vpn1_of(v)] == 0);
            }
        }
        r
    }

    /// Makes virtual page `virt_address` translate to physical page
    /// `phys_address` with `flags`. A root entry that is not valid yet first
    /// gets a level-0 table on a fresh zeroed page from `alloc`; without a
    /// free page nothing changes.
    pub fn map(
        &mut self,
        alloc: &mut PageAllocator,
        virt_address: VirtualAddress,
        phys_address: PhysicalAddress,
        flags: usize,
    ) -> (r: Result<(), AllocError>)
        requires
            old(self).wf(),
            old(alloc).wf(),
            virt_address.0 % PAGE_SIZE == 0,
            virt_address.0 < ADDRESS_SPACE_END,
            phys_address.value() % 4096 == 0,
            phys_address.value() < PHYSICAL_SPACE_END,
            flags < 256,
        ensures
            final(self).wf(),
            final(alloc).wf(),
            r is Ok <==> entry_valid(old(self).root()[vpn1_of(virt_address.0 as int)])
                || has_free_run(old(alloc).pages(), 1),
            r is Ok ==> final(self).translation(virt_address.0 as int) == Some(
                (phys_address.value(), flags | 1),
            ),
            r is Ok ==> forall|w: int|
                (vpn1_of(w) != vpn1_of(virt_address.0 as int) || vpn0_of(w) != vpn0_of(
                    virt_address.0 as int,
                )) && 0 <= w ==> #[trigger] final(self).translation(w) == old(self).translation(w),
            entry_valid(old(self).root()[vpn1_of(virt_address.0 as int)]) ==> {
                &&& *final(alloc) == *old(alloc)
                &&& final(self).root() == old(self).root()
            },
            !entry_valid(old(self).root()[vpn1_of(virt_address.0 as int)]) && r is Ok ==> {
                &&& old(alloc).took_run(
                    final(alloc),
                    1,
                    entry_phys(final(self).root()[vpn1_of(virt_address.0 as int)]) as int,
                )
                &&& final(self).root()[vpn1_of(virt_address.0 as int)] == branch_entry(
                    entry_phys(final(self).root()[vpn1_of(virt_address.0 as int)]) as usize,
                )
                &&& final(self).root() == old(self).root().update(
                    vpn1_of(virt_address.0 as int),
                    final(self).root()[vpn1_of(virt_address.0 as int)],
                )
            },
            r is Err ==> *final(self) == *old(self) && *final(alloc) == *old(alloc),
            final(alloc).heap_base() == old(alloc).heap_base(),
            final(alloc).alloc_base() == old(alloc).alloc_base(),
            bytes_cleared(old(alloc).bytes(), final(alloc).bytes()),
    {
        let i = virt_address.vpn1();
        let j = virt_address.vpn0();
        proof {
            assert(self.root()[i as int] == self.entries@[i as int].0);
        }
        let level1 = self.entries[i];
        if !level1.is_valid() {
            let new_table = match alloc.zero_alloc(1) {
                Ok(addr) => addr,
                Err(e) => {
                    return Err(e);
                },
            };
            proof {
                vstd::arithmetic::div_mod::lemma_fundamental_div_mod(
                    new_table - alloc.alloc_base(),
                    PAGE_SIZE as int,
                );
                assert(new_table % 4096 == 0) by {
                    vstd::arithmetic::div_mod::lemma_mod_adds(
                        alloc.alloc_base(),
                        new_table - alloc.alloc_base(),
                        4096,
                    );
                }
                assert(alloc.index_of(new_table as int) < alloc.pages().len());
                assert(new_table < alloc.alloc_end()) by (nonlinear_arith)
                    requires
                        new_table == alloc.alloc_base() + (new_table - alloc.alloc_base()),
                        alloc.index_of(new_table as int) == (new_table - alloc.alloc_base()) / 4096,
                        alloc.index_of(new_table as int) + 1 <= alloc.pages().len(),
                        alloc.alloc_end() == alloc.alloc_base() + alloc.pages().len() * 4096,
                        new_table - alloc.alloc_base() == 4096 * ((new_table - alloc.alloc_base())
                            / 4096) + (new_table - alloc.alloc_base()) % 4096,
                        (new_table - alloc.alloc_base()) % 4096 == 0,
                ;
                lemma_branch_entry(new_table);
            }
            let branch = Entry(((new_table >> 12) << 10) | EntryFlags::Valid.value());
            let mut table: Vec<Entry> = Vec::new();
            let mut k: usize = 0;
            while k < ENTRIES_PER_TABLE
                invariant
                    k <= ENTRIES_PER_TABLE,
                    table@.len() == k,
                    forall|m: int| 0 <= m < k ==> (#[trigger] table@[m]).0 == 0,
                decreases ENTRIES_PER_TABLE - k,
            {
                table.push(Entry(0));
                k += 1;
            }
            self.entries.set(i, branch);
            self.tables.set(i, table);
            proof {
                lemma_zero_entry();
                assert(self.root() =~= old(self).root().update(i as int, branch.0));
                assert forall|m: int| 0 <= m < ENTRIES_PER_TABLE && m != i implies self.table(m)
                    == old(self).table(m) by {
                    assert(self.tables@[m] == old(self).tables@[m]);
                }
                assert forall|m: int| 0 <= m < ENTRIES_PER_TABLE implies !entry_valid(
                    #[trigger] self.table(i as int)[m],
                ) by {
                    assert(self.table(i as int)[m] == self.tables@[i as int]@[m].0);
                }
            }
        }
        let ghost mid = *self;
        proof {
            lemma_leaf_entry(phys_address.value(), flags);
            assert(self.root()[i as int] == self.entries@[i as int].0);
        }
        let leaf = Entry(phys_address.to_ppn() as usize | flags | EntryFlags::Valid.value());
        self.tables[i].set(j, leaf);
        proof {
            assert(self.root() =~= mid.root());
            assert(self.table(i as int) =~= mid.table(i as int).update(j as int, leaf.0));
            assert forall|m: int| 0 <= m < ENTRIES_PER_TABLE && m != i implies self.table(m)
                == mid.table(m) by {
                assert(self.tables@[m] == mid.tables@[m]);
            }
            assert forall|w: int|
                (vpn1_of(w) != vpn1_of(virt_address.0 as int) || vpn0_of(w) != vpn0_of(
                    virt_address.0 as int,
                )) && 0 <= w implies #[trigger] self.translation(w) == old(self).translation(w) by {
                if vpn1_of(w) != i {
                    assert(self.table(vpn1_of(w)) == mid.table(vpn1_of(w)));
                }
            }
        }
        Ok(())
    }

    /// The physical page and flags (with the valid bit) that `virt_address`
    /// translates to, if it is mapped.
    pub fn lookup(&self, virt_address: VirtualAddress) -> (r: Option<(PhysicalAddress, usize)>)
        requires
            self.wf(),
        ensures
            r is None <==> self.translation(virt_address.0 as int) is None,
            r matches Some((p, f)) ==> self.translation(virt_address.0 as int) == Some(
                (p.value(), f),
            ),
    {
        let i = virt_address.vpn1();
        let j = virt_address.vpn0();
        proof {
            assert(self.root()[i as int] == self.entries@[i as int].0);
        }
        let level1 = self.entries[i];
        if !level1.is_valid() {
            return None;
        }
        proof {
            assert(self.table(i as int)[j as int] == self.tables@[i as int]@[j as int].0);
        }
        let leaf = self.tables[i][j];
        if !leaf.is_valid() {
            return None;
        }
        Some((leaf.get_phys_address(), leaf.0 & 0x3ff))
    }

    /// Clears every root entry. The page of each level-0 table goes back to
    /// `alloc`; the pages that leaf entries point at are not the table's and
    /// stay as they are.
    pub fn unmap(&mut self, alloc: &mut PageAllocator)
        requires
            old(self).wf(),
            old(alloc).wf(),
        ensures
            final(self).wf(),
            final(alloc).wf(),
            forall|i: int| 0 <= i < ENTRIES_PER_TABLE ==> #[trigger] final(self).root()[i] == 0,
            forall|v: int| 0 <= v ==> #[trigger] final(self).translation(v) is None,
            final(alloc).pages() == unmapped_pages(
                old(alloc).pages(),
                old(alloc).alloc_base(),
                old(self).root(),
                ENTRIES_PER_TABLE as int,
            ),
            final(alloc).heap_base() == old(alloc).heap_base(),
            final(alloc).alloc_base() == old(alloc).alloc_base(),
            final(alloc).bytes() == old(alloc).bytes(),
    {
        let mut i: usize = 0;
        proof {
            lemma_zero_entry();
        }
        while i < ENTRIES_PER_TABLE
            invariant
                0 <= i <= ENTRIES_PER_TABLE,
                self.wf(),
                alloc.wf(),
                self.root().len() == ENTRIES_PER_TABLE,
                forall|k: int| 0 <= k < i ==> #[trigger] self.root()[k] == 0,
                forall|k: int| i <= k < ENTRIES_PER_TABLE ==> #[trigger] self.root()[k] == old(
                    self,
                ).root()[k],
                alloc.pages() == unmapped_pages(
                    old(alloc).pages(),
                    old(alloc).alloc_base(),
                    old(self).root(),
                    i as int,
                ),
                alloc.heap_base() == old(alloc).heap_base(),
                alloc.alloc_base() == old(alloc).alloc_base(),
                alloc.bytes() == old(alloc).bytes(),
            decreases ENTRIES_PER_TABLE - i,
        {
            proof {
                lemma_zero_entry();
                assert(self.root()[i as int] == self.entries@[i as int].0);
            }
            let entry = self.entries[i];
            if entry.is_valid() && entry.is_branch() {
                let table = entry.get_phys_address().as_u64() as usize;
                let _ = alloc.dealloc(table);
            }
            let ghost before = *self;
            self.entries.set(i, Entry(0));
            self.tables.set(i, Vec::new());
            proof {
                assert(self.root() =~= before.root().update(i as int, 0));
                assert forall|m: int| 0 <= m < ENTRIES_PER_TABLE && m != i implies self.table(m)
                    == before.table(m) by {
                    assert(self.tables@[m] == before.tables@[m]);
                }
                assert(self.table(i as int) =~= Seq::<usize>::empty());
            }
            i += 1;
        }
        proof {
            assert forall|v: int| 0 <= v implies #[trigger] self.translation(v) is None by {
                assert(self.root()[vpn1_of(v)] == 0);
            }
        }
    }

    /// Maps every page from `start` up to `end`, rounded up to a page
    /// boundary, to the physical page at the same address, with `flags`.
    /// A misaligned `start` is refused and nothing changes. When `alloc` runs
    /// out of pages for level-0 tables, the pages up to there stay mapped.
    pub fn map_kernel_range(
        &mut self,
        alloc: &mut PageAllocator,
        start: VirtualAddress,
        end: VirtualAddress,
        flags: usize,
    ) -> (r: Result<(), MapError>)
        requires
            old(self).wf(),
            old(alloc).wf(),
            start.0 <= end.0,
            end.0 + PAGE_SIZE - 1 <= usize::MAX,
            end.0 + PAGE_SIZE - 1 < ADDRESS_SPACE_END,
            flags < 256,
        ensures
            final(self).wf(),
            final(alloc).wf(),
            start.0 % PAGE_SIZE != 0 ==> r == Err::<(), MapError>(MapError::Misaligned)
                && *final(self) == *old(self) && *final(alloc) == *old(alloc),
            start.0 % PAGE_SIZE == 0 ==> r != Err::<(), MapError>(MapError::Misaligned),
            final(alloc).heap_base() == old(alloc).heap_base(),
            final(alloc).alloc_base() == old(alloc).alloc_base(),
            r is Ok ==> final(self).maps_range_from(
                old(self),
                start.0 as int,
                range_pages(start.0 as int, end.0 as int),
                flags,
            ),
            start.0 % PAGE_SIZE == 0 ==> tables_drawn(
                old(self).root(),
                old(alloc),
                final(self).root(),
                final(alloc),
            ),
            r is Ok ==> forall|j: int|
                0 <= j < ENTRIES_PER_TABLE ==> #[trigger] entry_valid(final(self).root()[j]) == (
                entry_valid(old(self).root()[j]) || range_uses(
                    start.0 as int,
                    range_pages(start.0 as int, end.0 as int),
                    j,
                )),
            r == Err::<(), MapError>(MapError::Exhausted) ==> free_count(old(alloc).pages())
                < tables_needed(
                old(self).root(),
                start.0 as int,
                range_pages(start.0 as int, end.0 as int),
            ),
            start.0 % PAGE_SIZE == 0 && tables_needed(
                old(self).root(),
                start.0 as int,
                range_pages(start.0 as int, end.0 as int),
            ) == 0 ==> r is Ok && *final(alloc) == *old(alloc),
            r == Err::<(), MapError>(MapError::Exhausted) ==> {
                &&& !has_free_run(final(alloc).pages(), 1)
                &&& exists|m: int|
                    0 <= m < range_pages(start.0 as int, end.0 as int)
                        && #[trigger] final(self).maps_range_from(old(self), start.0 as int, m, flags)
            },
    {
        if !start.is_aligned() {
            return Err(MapError::Misaligned);
        }
        let base = start.as_usize();
        proof {
            vstd::arithmetic::power2::lemma2_to64();
        }
        let aligned_end = align_val(end.as_usize(), crate::page::PAGE_ORDER);
        proof {
            vstd::arithmetic::div_mod::lemma_fundamental_div_mod(base as int, 4096);
            vstd::arithmetic::div_mod::lemma_fundamental_div_mod(aligned_end as int, 4096);
            let s = base as int / 4096;
            let e = aligned_end as int / 4096;
            assert(e * 4096 - s * 4096 == (e - s) * 4096) by (nonlinear_arith);
            vstd::arithmetic::div_mod::lemma_div_multiples_vanish(e - s, 4096);
            let d = end.0 - base;
            vstd::arithmetic::div_mod::lemma_fundamental_div_mod(d + 4095, 4096);
            let k = e - s;
            let q = (d + 4095) / 4096;
            assert(aligned_end - base == 4096 * k);
            assert(k == q);
            assert((aligned_end - base) / 4096 == k);
        }
        let num_pages: usize = (aligned_end - base) / PAGE_SIZE;
        let mut i: usize = 0;
        while i < num_pages
            invariant
                self.wf(),
                alloc.wf(),
                i <= num_pages,
                base == start.0,
                base % 4096 == 0,
                base + num_pages * 4096 <= aligned_end,
                aligned_end <= ADDRESS_SPACE_END,
                num_pages == range_pages(start.0 as int, end.0 as int),
                flags < 256,
                self.maps_range_from(old(self), base as int, i as int, flags),
                alloc.heap_base() == old(alloc).heap_base(),
                alloc.alloc_base() == old(alloc).alloc_base(),
                old(self).wf(),
                tables_drawn(old(self).root(), old(alloc), self.root(), alloc),
                forall|j: int|
                    0 <= j < ENTRIES_PER_TABLE ==> #[trigger] entry_valid(self.root()[j]) == (
                    entry_valid(old(self).root()[j]) || range_uses(base as int, i as int, j)),
                (forall|j: int|
                    0 <= j < ENTRIES_PER_TABLE ==> #[trigger] entry_valid(self.root()[j])
                        == entry_valid(old(self).root()[j])) ==> *alloc == *old(alloc),
            decreases num_pages - i,
        {
            proof {
                assert(base + i * 4096 + 4096 <= base + num_pages * 4096) by (nonlinear_arith)
                    requires
                        i < num_pages,
                ;
            }
            let offset: usize = i * PAGE_SIZE;
            let addr: usize = base + offset;
            let ghost before = *self;
            let ghost alloc_before = *alloc;
            let res = self.map(
                alloc,
                VirtualAddress(base).with_offset(offset),
                PhysicalAddress(base as u64).with_offset(offset as u64),
                flags,
            );
            if res.is_err() {
                proof {
                    assert(!has_free_run(alloc.pages(), 1));
                    assert(0 <= i < range_pages(start.0 as int, end.0 as int));
                    lemma_range_exhausted(old(self).root(), *old(alloc), self.root(), *alloc, base as int, i as int, num_pages as int);
                }
                return Err(MapError::Exhausted);
            }
            proof {
                lemma_extend_range(*old(self), before, *self, base as int, i as int, flags);
                assert(vpn1_of(page_at(base as int, i as int)) == vpn1_of(addr as int));
                lemma_range_step(
                    old(self).root(),
                    *old(alloc),
                    before.root(),
                    alloc_before,
                    self.root(),
                    *alloc,
                    base as int,
                    i as int,
                );
            }
            i += 1;
        }
        proof {
            let needed = |j: int| range_uses(base as int, num_pages as int, j) && !entry_valid(
                old(self).root()[j],
            );
            lemma_count_zero(ENTRIES_PER_TABLE as int, needed);
            if tables_needed(old(self).root(), base as int, num_pages as int) == 0 {
                assert forall|j: int| 0 <= j < ENTRIES_PER_TABLE implies #[trigger] entry_valid(
                    self.root()[j],
                ) == entry_valid(old(self).root()[j]) by {
                    assert(!needed(j));
                }
            }
        }
        Ok(())
    }

    /// The valid root entries in order, and with `full` the valid entries of
    /// the level-0 table under each branch right after it: what a diagnostic
    /// print of the table shows, one line per entry.
    pub fn print_entries(&self, full: bool) -> (r: Vec<EntryLine>)
        requires
            self.wf(),
        ensures
            r@ == self.root_lines(full, ENTRIES_PER_TABLE as int),
    {
        let mut lines: Vec<EntryLine> = Vec::new();
        let mut i: usize = 0;
        while i < ENTRIES_PER_TABLE
            invariant
                self.wf(),
                i <= ENTRIES_PER_TABLE,
                lines@ == self.root_lines(full, i as int),
            decreases ENTRIES_PER_TABLE - i,
        {
            proof {
                assert(self.root()[i as int] == self.entries@[i as int].0);
            }
            let entry = self.entries[i];
            if entry.is_valid() {
                let ghost head = lines@;
                let line = EntryLine {
                    nested: false,
                    index: i,
                    value: entry.0,
                    phys: entry.get_phys_address().as_u64(),
                    leaf: entry.is_leaf(),
                };
                lines.push(line);
                if full && entry.is_branch() {
                    let mut j: usize = 0;
                    while j < ENTRIES_PER_TABLE
                        invariant
                            self.wf(),
                            i < ENTRIES_PER_TABLE,
                            j <= ENTRIES_PER_TABLE,
                            entry_valid(self.root()[i as int]),
                            self.table(i as int).len() == ENTRIES_PER_TABLE,
                            lines@ == head + seq![line] + table_lines(self.table(i as int), j as int),
                        decreases ENTRIES_PER_TABLE - j,
                    {
                        proof {
                            assert(self.table(i as int)[j as int]
                                == self.tables@[i as int]@[j as int].0);
                        }
                        let e = self.tables[i][j];
                        if e.is_valid() {
                            lines.push(
                                EntryLine {
                                    nested: true,
                                    index: j,
                                    value: e.0,
                                    phys: e.get_phys_address().as_u64(),
                                    leaf: e.is_leaf(),
                                },
                            );
                        }
                        proof {
                            assert(lines@ =~= head + seq![line] + table_lines(
                                self.table(i as int),
                                j + 1,
                            ));
                        }
                        j += 1;
                    }
                    proof {
                        assert(lines@ =~= self.root_lines(full, i + 1));
                    }
                } else {
                    proof {
                        assert(lines@ =~= self.root_lines(full, i + 1));
                    }
                }
            } else {
                proof {
                    assert(lines@ =~= self.root_lines(full, i + 1));
                }
            }
            i += 1;
        }
        lines
    }
}

impl Default for PageTable {
    fn default() -> (r: Self)
        ensures
            r.wf(),
            forall|v: int| 0 <= v ==> #[trigger] r.translation(v) is None,
    {
        Self::new()
    }
}

} // verus!
