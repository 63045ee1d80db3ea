//! Sv39 page tables: entry encoding, address checks, and mapping a virtual
//! page to a physical one, allocating intermediate tables as needed.
use vstd::prelude::*;
use crate::mm::{FrameAllocator, PAGE_SIZE, frame_used, frame_addr, first_free};

verus! {

pub const PAGE_TABLE_ENTRIES_PER_PAGE: usize = 512;
pub const PAGE_SHIFT: usize = 12;
pub const PAGE_TABLE_ENTRY_PHYSICAL_PAGE_NUMBER_SHIFT: u64 = 10;
pub const PAGE_TABLE_ENTRY_PHYSICAL_PAGE_NUMBER_MASK: u64 = 0xfff_ffff_ffff;

pub const PRESENT: u64 = 1;
pub const READ: u64 = 2;
pub const WRITE: u64 = 4;
pub const EXECUTE: u64 = 8;
pub const USER: u64 = 16;
pub const GLOBAL: u64 = 32;
pub const ACCESSED: u64 = 64;
pub const DIRTY: u64 = 128;

pub const SUPERVISOR_ADDRESS_TRANSLATION_AND_PROTECTION_MODE_SV39: u64 = 0x8000_0000_0000_0000;
pub const SV39_VIRTUAL_ADDRESS_BITS: usize = 39;
pub const BITS_PER_REGISTER: usize = 64;

/// Why a mapping could not be made.
#[derive(PartialEq, Eq, Structural, Clone, Copy, Debug)]
pub enum PagingError {
    InvalidAddress,
    AlreadyMapped,
    OutOfFrames,
}

/// What a page-table entry is.
#[derive(PartialEq, Eq, Structural, Clone, Copy, Debug)]
pub enum PageTableEntryKind {
    /// V=0.
    NotPresent,
    /// V=1, R=W=X=0: points to the next level page table.
    NextTablePointer,
    /// V=1, R=1 or X=1: final mapping.
    Leaf,
    /// V=1, W=1, R=0: the spec reserves this encoding.
    ReservedWritableWithoutRead,
}

pub open spec fn classify_spec(entry: u64) -> PageTableEntryKind {
    if entry & PRESENT == 0 {
        PageTableEntryKind::NotPresent
    } else if entry & WRITE != 0 && entry & READ == 0 {
        PageTableEntryKind::ReservedWritableWithoutRead
    } else if entry & (READ | WRITE | EXECUTE) == 0 {
        PageTableEntryKind::NextTablePointer
    } else {
        PageTableEntryKind::Leaf
    }
}

/// Classifies an entry by its V, R, W and X bits.
pub fn classify_page_table_entry(entry: u64) -> (r: PageTableEntryKind)
    ensures
        r == classify_spec(entry),
{
    if entry & PRESENT == 0 {
        PageTableEntryKind::NotPresent
    } else if entry & WRITE != 0 && entry & READ == 0 {
        PageTableEntryKind::ReservedWritableWithoutRead
    } else if entry & (READ | WRITE | EXECUTE) == 0 {
        PageTableEntryKind::NextTablePointer
    } else {
        PageTableEntryKind::Leaf
    }
}

/// The index into the level-`level` table that `va` selects: its nine
/// bits above the page offset and the lower levels' indices.
pub open spec fn pt_index(va: usize, level: usize) -> int {
    ((va >> ((PAGE_SHIFT + 9 * level) as usize)) & 511usize) as int
}

/// Returns the index into the page table of the given level for `va`.
pub fn page_table_index(virtual_address: usize, level: usize) -> (r: usize)
    requires
        level <= 2,
    ensures
        r == pt_index(virtual_address, level),
        r < PAGE_TABLE_ENTRIES_PER_PAGE,
{
    let r = (virtual_address >> (PAGE_SHIFT + 9 * level)) & (PAGE_TABLE_ENTRIES_PER_PAGE - 1);
    assert(r < 512) by (bit_vector)
        requires
            r == (virtual_address >> ((PAGE_SHIFT + 9 * level) as usize)) & 511usize,
    ;
    r
}

/// Sv39 addresses: bits 63:39 equal bit 38, so the address lies in the
/// lowest or the highest 256 GiB.
pub open spec fn canonical(va: usize) -> bool {
    va < 0x40_0000_0000 || va >= usize::MAX - 0x3f_ffff_ffff
}

/// Sv39 requires bits 63:39 to equal bit 38.
pub fn is_canonical(virtual_address: usize) -> (r: bool)
    ensures
        r == canonical(virtual_address),
{
    let top = (virtual_address as u64) >> 38u64;
    let r = top == 0 || top == ((usize::MAX as u64) >> 38u64);
    let v = virtual_address as u64;
    let m = usize::MAX as u64;
    assert(((v >> 38u64) == 0 || (v >> 38u64) == (m >> 38u64)) == (v < 0x40_0000_0000 || v >= m - 0x3f_ffff_ffff)) by (bit_vector)
        requires
            v <= m,
            m == 0xffff_ffff || m == 0xffff_ffff_ffff_ffff,
    ;
    r
}

pub open spec fn pa_to_pte(physical_address: usize) -> u64 {
    ((physical_address >> PAGE_SHIFT) as u64) << PAGE_TABLE_ENTRY_PHYSICAL_PAGE_NUMBER_SHIFT
}

pub open spec fn pte_to_pa(entry: u64) -> usize {
    (((entry >> PAGE_TABLE_ENTRY_PHYSICAL_PAGE_NUMBER_SHIFT) & PAGE_TABLE_ENTRY_PHYSICAL_PAGE_NUMBER_MASK) << (PAGE_SHIFT as u64)) as usize
}

/// The entry bits that hold the physical page number of `physical_address`.
pub fn physical_address_to_page_table_entry(physical_address: usize) -> (r: u64)
    ensures
        r == pa_to_pte(physical_address),
{
    ((physical_address >> PAGE_SHIFT) as u64) << PAGE_TABLE_ENTRY_PHYSICAL_PAGE_NUMBER_SHIFT
}

/// The physical address that an entry's page number names.
pub fn page_table_entry_to_physical_address(entry: u64) -> (r: usize)
    ensures
        r == pte_to_pa(entry),
{
    (((entry >> PAGE_TABLE_ENTRY_PHYSICAL_PAGE_NUMBER_SHIFT) & PAGE_TABLE_ENTRY_PHYSICAL_PAGE_NUMBER_MASK)
        << (PAGE_SHIFT as u64)) as usize
}


// ---------------------------------------------------------------- page-table memory

/// The physical pages that hold page tables: `addrs[k]` is the address of
/// the table whose 512 entries are `entries[512 * k ..][..512]`. Other
/// physical memory is not modelled.
pub struct PageTableMemory {
    pub addrs: Vec<usize>,
    pub entries: Vec<u64>,
}

/// Position in `addrs`, from `k` on, of the first table at `a`.
pub open spec fn slot_from(addrs: Seq<usize>, a: usize, k: int) -> Option<int>
    decreases addrs.len() - k,
{
    if k < 0 || k >= addrs.len() {
        None
    } else if addrs[k] == a {
        Some(k)
    } else {
        slot_from(addrs, a, k + 1)
    }
}

proof fn lemma_slot_from(addrs: Seq<usize>, a: usize, k: int)
    requires
        0 <= k,
    ensures
        slot_from(addrs, a, k) matches Some(j) ==> k <= j < addrs.len() && addrs[j] == a
            && forall|i: int| k <= i < j ==> addrs[i] != a,
        slot_from(addrs, a, k) is None ==> forall|i: int| k <= i < addrs.len() ==> addrs[i] != a,
    decreases addrs.len() - k,
{
    if k < addrs.len() && addrs[k] != a {
        lemma_slot_from(addrs, a, k + 1);
    }
}

impl PageTableMemory {
    pub open spec fn slot(&self, a: usize) -> Option<int> {
        slot_from(self.addrs@, a, 0)
    }

    /// A table lives at `a`.
    pub open spec fn has(&self, a: usize) -> bool {
        self.slot(a) is Some
    }

    /// Entry `j` of the table at `a`.
    pub open spec fn entry(&self, a: usize, j: int) -> u64 {
        self.entries@[512 * self.slot(a)->Some_0 + j]
    }

    pub open spec fn wf(&self) -> bool {
        self.entries@.len() == 512 * self.addrs@.len()
    }

    /// Every pointer entry of every table leads to a table.
    pub open spec fn walkable(&self) -> bool {
        forall|a: usize, j: int| #![trigger self.entry(a, j)]
            self.has(a) && 0 <= j < 512 && classify_spec(self.entry(a, j)) == PageTableEntryKind::NextTablePointer
                ==> self.has(pte_to_pa(self.entry(a, j)))
    }

    /// A memory holding one zeroed root table at `root`.
    pub fn new(root: usize) -> (r: Self)
        ensures
            r.wf(),
            r.walkable(),
            r.has(root),
            forall|a: usize| r.has(a) <==> a == root,
            forall|j: int| 0 <= j < 512 ==> r.entry(root, j) == 0,
    {
        let mut r = PageTableMemory { addrs: Vec::new(), entries: Vec::new() };
        r.zero_table(root);
        proof {
            assert(0u64 & 1u64 == 0) by (bit_vector);
        }
        r
    }

    fn find(&self, a: usize) -> (r: Option<usize>)
        requires
            self.wf(),
        ensures
            r matches Some(k) ==> self.slot(a) == Some(k as int),
            r is None ==> self.slot(a) is None,
    {
        let mut k = 0usize;
        while k < self.addrs.len()
            invariant
                k <= self.addrs@.len(),
                self.slot(a) == slot_from(self.addrs@, a, k as int),
            decreases self.addrs@.len() - k,
        {
            if self.addrs[k] == a {
                return Some(k);
            }
            k = k + 1;
        }
        None
    }

    /// Makes the page at `a` a page table with every entry zero, as clearing
    /// a freshly allocated frame does. Other tables are left alone.
    pub fn zero_table(&mut self, a: usize)
        requires
            old(self).wf(),
        ensures
            final(self).wf(),
            final(self).has(a),
            forall|j: int| 0 <= j < 512 ==> final(self).entry(a, j) == 0,
            forall|b: usize| #[trigger] final(self).has(b) <==> (old(self).has(b) || b == a),
            forall|b: usize, j: int| #![trigger final(self).entry(b, j)] old(self).has(b) && b != a && 0 <= j < 512
                ==> final(self).entry(b, j) == old(self).entry(b, j),
    {
        proof {
            assert forall|b: usize| #[trigger] old(self).has(b) implies 0 <= old(self).slot(b)->Some_0 < old(self).addrs@.len() by {
                lemma_slot_from(old(self).addrs@, b, 0);
            }
        }
        match self.find(a) {
            Some(k) => {
                proof {
                    lemma_slot_from(self.addrs@, a, 0);
                }
                let mut j = 0usize;
                proof {
                    assert(self.entries@.len() == self.entries.len());
                    assert(512 * k + 512 <= self.entries@.len()) by (nonlinear_arith)
                        requires 0 <= k < self.addrs@.len(), self.entries@.len() == 512 * self.addrs@.len();
                }
                while j < 512
                    invariant
                        self.wf(),
                        512 * k + 512 <= self.entries@.len() <= usize::MAX,
                        self.addrs@ == old(self).addrs@,
                        self.slot(a) == Some(k as int),
                        0 <= k < self.addrs@.len(),
                        j <= 512,
                        forall|i: int| 512 * k <= i < 512 * k + j ==> self.entries@[i] == 0,
                        forall|i: int| 0 <= i < self.entries@.len() && !(512 * k <= i < 512 * k + 512)
                            ==> self.entries@[i] == old(self).entries@[i],
                    decreases 512 - j,
                {
                    self.entries.set(512 * k + j, 0);
                    j = j + 1;
                }
                proof {
                    assert forall|b: usize, j: int| #![trigger self.entry(b, j)] old(self).has(b) && b != a && 0 <= j < 512
                        implies self.entry(b, j) == old(self).entry(b, j) by {
                        lemma_slot_from(self.addrs@, b, 0);
                        let kb = self.slot(b)->Some_0;
                        assert(kb != k);
                        assert(0 <= 512 * kb + j < self.entries@.len()) by (nonlinear_arith)
                            requires 0 <= kb < self.addrs@.len(), 0 <= j < 512, self.entries@.len() == 512 * self.addrs@.len();
                        assert(!(512 * k <= 512 * kb + j < 512 * k + 512)) by (nonlinear_arith)
                            requires kb != k, 0 <= j < 512;
                    }
                }
            },
            None => {
                proof {
                    lemma_slot_from(self.addrs@, a, 0);
                }
                let n = self.addrs.len();
                self.addrs.push(a);
                let mut j = 0usize;
                while j < 512
                    invariant
                        self.addrs@ == old(self).addrs@.push(a),
                        n == old(self).addrs@.len(),
                        self.entries@.len() == 512 * n + j,
                        j <= 512,
                        forall|i: int| 0 <= i < 512 * n ==> self.entries@[i] == old(self).entries@[i],
                        forall|i: int| 512 * n <= i < 512 * n + j ==> self.entries@[i] == 0,
                        old(self).entries@.len() == 512 * n,
                    decreases 512 - j,
                {
                    self.entries.push(0);
                    j = j + 1;
                }
                proof {
                    assert forall|b: usize| #[trigger] self.has(b) <==> (old(self).has(b) || b == a) by {
                        lemma_slot_from(self.addrs@, b, 0);
                        lemma_slot_from(old(self).addrs@, b, 0);
                        if old(self).has(b) {
                            let kb = old(self).slot(b)->Some_0;
                            assert(self.addrs@[kb] == b);
                        }
                        if b == a {
                            assert(self.addrs@[n as int] == a);
                        }
                        if self.has(b) && b != a {
                            let kb = self.slot(b)->Some_0;
                            assert(kb < n);
                            assert(old(self).addrs@[kb] == b);
                        }
                    }
                    assert(self.slot(a) == Some(n as int)) by {
                        lemma_slot_from(self.addrs@, a, 0);
                        lemma_slot_from(old(self).addrs@, a, 0);
                        assert(self.addrs@[n as int] == a);
                        let ka = self.slot(a)->Some_0;
                        assert(ka <= n);
                        if ka < n {
                            assert(self.addrs@[ka] == old(self).addrs@[ka]);
                        }
                    }
                    assert forall|b: usize, j: int| #![trigger self.entry(b, j)] old(self).has(b) && b != a && 0 <= j < 512
                        implies self.entry(b, j) == old(self).entry(b, j) by {
                        lemma_slot_from(self.addrs@, b, 0);
                        lemma_slot_from(old(self).addrs@, b, 0);
                        let kb = old(self).slot(b)->Some_0;
                        let kb2 = self.slot(b)->Some_0;
                        assert(self.addrs@[kb] == b);
                        if kb2 < kb {
                            assert(old(self).addrs@[kb2] == b);
                        }
                        assert(kb2 == kb);
                        assert(512 * kb + j < 512 * n) by (nonlinear_arith)
                            requires 0 <= kb < n, 0 <= j < 512;
                    }
                }
            },
        }
    }
}

/// Reads entry `index` of the page table at `table_physical_address`.
pub fn read_page_table_entry(mem: &PageTableMemory, table_physical_address: usize, index: usize) -> (r: u64)
    requires
        mem.wf(),
        mem.has(table_physical_address),
        index < PAGE_TABLE_ENTRIES_PER_PAGE,
    ensures
        r == mem.entry(table_physical_address, index as int),
{
    proof {
        lemma_slot_from(mem.addrs@, table_physical_address, 0);
        let k = mem.slot(table_physical_address)->Some_0;
        assert(512 * k + index < mem.entries@.len()) by (nonlinear_arith)
            requires 0 <= k < mem.addrs@.len(), index < 512, mem.entries@.len() == 512 * mem.addrs@.len();
    }
    let k = mem.find(table_physical_address).unwrap();
    proof {
        assert(mem.entries@.len() == mem.entries.len());
    }
    mem.entries[512 * k + index]
}

/// Writes entry `index` of the page table at `table_physical_address`.
pub fn write_page_table_entry(mem: &mut PageTableMemory, table_physical_address: usize, index: usize, entry: u64)
    requires
        old(mem).wf(),
        old(mem).has(table_physical_address),
        index < PAGE_TABLE_ENTRIES_PER_PAGE,
    ensures
        final(mem).wf(),
        final(mem).addrs == old(mem).addrs,
        final(mem).entry(table_physical_address, index as int) == entry,
        forall|b: usize, j: int| #![trigger final(mem).entry(b, j)] old(mem).has(b) && 0 <= j < 512
            && !(b == table_physical_address && j == index) ==> final(mem).entry(b, j) == old(mem).entry(b, j),
{
    proof {
        lemma_slot_from(mem.addrs@, table_physical_address, 0);
        let k = mem.slot(table_physical_address)->Some_0;
        assert(512 * k + index < mem.entries@.len()) by (nonlinear_arith)
            requires 0 <= k < mem.addrs@.len(), index < 512, mem.entries@.len() == 512 * mem.addrs@.len();
    }
    let k = mem.find(table_physical_address).unwrap();
    proof {
        assert(mem.entries@.len() == mem.entries.len());
    }
    mem.entries.set(512 * k + index, entry);
    proof {
        assert forall|b: usize, j: int| #![trigger mem.entry(b, j)] old(mem).has(b) && 0 <= j < 512
            && !(b == table_physical_address && j == index) implies mem.entry(b, j) == old(mem).entry(b, j) by {
            lemma_slot_from(mem.addrs@, b, 0);
            let kb = mem.slot(b)->Some_0;
            assert(0 <= 512 * kb + j < mem.entries@.len()) by (nonlinear_arith)
                requires 0 <= kb < mem.addrs@.len(), 0 <= j < 512, mem.entries@.len() == 512 * mem.addrs@.len();
            if kb == k {
                assert(b == table_physical_address);
            } else {
                assert(512 * kb + j != 512 * k + index) by (nonlinear_arith)
                    requires kb != k, 0 <= j < 512, index < 512;
            }
        }
    }
}


// ---------------------------------------------------------------- walking and mapping

/// The level-0 leaf entry that the hardware walk from `root` reaches for
/// `va`, through two pointer entries; `None` when the walk stops earlier.
pub open spec fn translate(m: &PageTableMemory, root: usize, va: usize) -> Option<u64> {
    let e2 = m.entry(root, pt_index(va, 2));
    if classify_spec(e2) != PageTableEntryKind::NextTablePointer {
        None
    } else {
        let e1 = m.entry(pte_to_pa(e2), pt_index(va, 1));
        if classify_spec(e1) != PageTableEntryKind::NextTablePointer {
            None
        } else {
            let e0 = m.entry(pte_to_pa(e1), pt_index(va, 0));
            if classify_spec(e0) == PageTableEntryKind::Leaf { Some(e0) } else { None }
        }
    }
}

/// `m2` keeps every table of `m1`, and every entry of them that was in use.
pub open spec fn extends(m1: &PageTableMemory, m2: &PageTableMemory) -> bool {
    forall|a: usize, j: int| #![trigger m2.entry(a, j)] #![trigger m1.entry(a, j)]
        m1.has(a) && 0 <= j < 512 ==> m2.has(a) && (classify_spec(m1.entry(a, j)) != PageTableEntryKind::NotPresent
            ==> m2.entry(a, j) == m1.entry(a, j))
}

/// No page table lives in a frame that the allocator holds as free.
pub open spec fn tables_not_free(m: &PageTableMemory, alloc: &FrameAllocator) -> bool {
    forall|f: int| 0 <= f < alloc.bitmap.frames && !frame_used(alloc.bitmap.words@, f)
        ==> !m.has(#[trigger] frame_addr(alloc.bitmap.base as int, f) as usize)
}

/// Every frame the allocator tracks has an address that a Sv39 entry can
/// hold (below 2^56).
pub open spec fn sv39_addressable(alloc: &FrameAllocator) -> bool {
    alloc.bitmap.base + alloc.bitmap.frames * PAGE_SIZE <= 0x100_0000_0000_0000
}

pub open spec fn has_free(words: Seq<u64>, frames: int) -> bool {
    exists|g: int| 0 <= g < frames && !#[trigger] frame_used(words, g)
}

pub open spec fn has_two_free(words: Seq<u64>, frames: int) -> bool {
    exists|g: int, h: int| 0 <= g < h < frames && !#[trigger] frame_used(words, g) && !#[trigger] frame_used(words, h)
}

/// The allocator can hand out `n` (at most two) frames.
pub open spec fn enough_free(alloc: &FrameAllocator, n: int) -> bool {
    let w = alloc.bitmap.words@;
    let fr = alloc.bitmap.frames as int;
    n <= 0 || (n == 1 && has_free(w, fr)) || (n >= 2 && has_two_free(w, fr))
}

/// The entry written to map a page.
pub open spec fn leaf_entry(physical_address: usize, flags: u64) -> u64 {
    pa_to_pte(physical_address) | flags | PRESENT | ACCESSED | DIRTY
}

/// What the walk for `va` reaches once the page is mapped.
pub open spec fn mapped_translation(physical_address: usize, flags: u64) -> Option<u64> {
    let e = leaf_entry(physical_address, flags);
    if classify_spec(e) == PageTableEntryKind::Leaf { Some(e) } else { None }
}

/// The addresses this mapper accepts: page-aligned, a canonical virtual
/// address and a physical address whose page number fits an entry.
pub open spec fn valid_request(va: usize, pa: usize) -> bool {
    &&& va % PAGE_SIZE == 0
    &&& pa % PAGE_SIZE == 0
    &&& canonical(va)
    &&& (pa >> PAGE_SHIFT) <= PAGE_TABLE_ENTRY_PHYSICAL_PAGE_NUMBER_MASK
}

pub open spec fn is_pointer(e: u64) -> bool {
    classify_spec(e) == PageTableEntryKind::NextTablePointer
}

pub open spec fn is_empty_entry(e: u64) -> bool {
    classify_spec(e) == PageTableEntryKind::NotPresent
}

/// The walk for `va` meets a leaf or a reserved entry on the way, or a
/// level-0 entry that is in use: the page cannot be mapped.
pub open spec fn blocked(m: &PageTableMemory, root: usize, va: usize) -> bool {
    let e2 = m.entry(root, pt_index(va, 2));
    if is_empty_entry(e2) {
        false
    } else if !is_pointer(e2) {
        true
    } else {
        let e1 = m.entry(pte_to_pa(e2), pt_index(va, 1));
        if is_empty_entry(e1) {
            false
        } else if !is_pointer(e1) {
            true
        } else {
            !is_empty_entry(m.entry(pte_to_pa(e1), pt_index(va, 0)))
        }
    }
}

/// How many new tables mapping `va` takes.
pub open spec fn tables_needed(m: &PageTableMemory, root: usize, va: usize) -> int {
    let e2 = m.entry(root, pt_index(va, 2));
    if is_empty_entry(e2) {
        2
    } else if is_empty_entry(m.entry(pte_to_pa(e2), pt_index(va, 1))) {
        1
    } else {
        0
    }
}

/// The bitmap after a step: the frames of the tables that the step added
/// are marked used, and nothing else changed.
pub open spec fn allocated_tables(m1: &PageTableMemory, m2: &PageTableMemory, a1: &FrameAllocator, a2: &FrameAllocator) -> bool {
    &&& a2.usable@ == a1.usable@
    &&& a2.bitmap_pa == a1.bitmap_pa
    &&& a2.bitmap.base == a1.bitmap.base
    &&& a2.bitmap.frames == a1.bitmap.frames
    &&& a2.bitmap.words@.len() == a1.bitmap.words@.len()
    &&& forall|g: int| 0 <= g < a1.bitmap.words@.len() * 64 ==> #[trigger] frame_used(a2.bitmap.words@, g)
        == (frame_used(a1.bitmap.words@, g) || (g < a1.bitmap.frames
            && m2.has(frame_addr(a1.bitmap.base as int, g) as usize) && !m1.has(frame_addr(a1.bitmap.base as int, g) as usize)))
}

proof fn lemma_pointer_encoding(t: usize)
    requires
        t % 4096 == 0,
        t < 0x100_0000_0000_0000,
    ensures
        pte_to_pa(pa_to_pte(t) | PRESENT) == t,
        is_pointer(pa_to_pte(t) | PRESENT),
{
    let e: u64 = (((t >> 12usize) as u64) << 10u64) | 1u64;
    let p: u64 = (e >> 10u64) & 0xfff_ffff_ffffu64;
    assert((p << 12u64) as usize == t) by (bit_vector)
        requires
            t % 4096 == 0,
            t < 0x100_0000_0000_0000,
            e == (((t >> 12usize) as u64) << 10u64) | 1u64,
            p == (e >> 10u64) & 0xfff_ffff_ffffu64,
    ;
    assert(e & 1u64 != 0 && e & 4u64 == 0 && e & 14u64 == 0) by (bit_vector)
        requires
            e == (((t >> 12usize) as u64) << 10u64) | 1u64,
    ;
    assert(2u64 | 4u64 | 8u64 == 14u64) by (bit_vector);
}

proof fn lemma_zero_entry()
    ensures
        is_empty_entry(0),
{
    assert(0u64 & 1u64 == 0) by (bit_vector);
}

proof fn lemma_frame_addr(base: int, f: int, g: int)
    requires
        base % 4096 == 0,
        0 <= f,
        0 <= g,
    ensures
        frame_addr(base, f) % 4096 == 0,
        f != g ==> frame_addr(base, f) != frame_addr(base, g),
        frame_addr(base, f) >= base,
{
    vstd::arithmetic::div_mod::lemma_mod_multiples_vanish(f, base, 4096);
    assert(f * 4096 >= 0) by (nonlinear_arith) requires f >= 0;
    if f != g {
        assert(f * 4096 != g * 4096) by (nonlinear_arith) requires f != g;
    }
}

/// A free frame below `frames` exists exactly when the lowest free frame
/// is below `frames`.
proof fn lemma_first_free_below(words: Seq<u64>, frames: int)
    requires
        0 <= frames <= words.len() * 64,
    ensures
        has_free(words, frames) <==> (first_free(words) matches Some(f) && f < frames),
        first_free(words) matches Some(f) ==> !frame_used(words, f) && 0 <= f,
{
    let n = words.len() * 64 as int;
    let pred = |h: int| !frame_used(words, h);
    if exists|j: int| crate::utils::is_first(n, pred, j) {
        let c = choose|j: int| crate::utils::is_first(n, pred, j);
        assert(crate::utils::is_first(n, pred, c));
        assert(pred(c));
        if has_free(words, frames) {
            let g = choose|g: int| 0 <= g < frames && !#[trigger] frame_used(words, g);
            if c > g {
                assert(!pred(g));
            }
        }
    } else {
        if has_free(words, frames) {
            let g = choose|g: int| 0 <= g < frames && !#[trigger] frame_used(words, g);
            lemma_least_free(words, g, n);
        }
    }
}

/// Below any free frame there is a least one.
proof fn lemma_least_free(words: Seq<u64>, g: int, n: int)
    requires
        0 <= g < n,
        n == words.len() * 64,
        !frame_used(words, g),
    ensures
        first_free(words) is Some,
    decreases g,
{
    let pred = |h: int| !frame_used(words, h);
    if forall|k: int| 0 <= k < g ==> !#[trigger] pred(k) {
        assert(crate::utils::is_first(n, pred, g));
        assert(pred == (|h: int| !frame_used(words, h)));
    } else {
        let k = choose|k: int| 0 <= k < g && #[trigger] pred(k);
        lemma_least_free(words, k, n);
    }
}


/// The memory and the allocator are as they were.
pub open spec fn unchanged(m1: &PageTableMemory, m2: &PageTableMemory, a1: &FrameAllocator, a2: &FrameAllocator) -> bool {
    &&& m2.addrs@ == m1.addrs@
    &&& m2.entries@ == m1.entries@
    &&& a2.usable@ == a1.usable@
    &&& a2.bitmap_pa == a1.bitmap_pa
    &&& a2.bitmap.base == a1.bitmap.base
    &&& a2.bitmap.frames == a1.bitmap.frames
    &&& a2.bitmap.words@ == a1.bitmap.words@
}

/// `m1` is `m0` with a new table `t` hung at entry `index` of `table`: the
/// entry points at `t`, every entry of `t` is zero, and nothing else moved.
pub open spec fn hung_at(m0: &PageTableMemory, m1: &PageTableMemory, table: usize, index: int, t: usize) -> bool {
    &&& !m0.has(t)
    &&& m1.entry(table, index) == pa_to_pte(t) | PRESENT
    &&& forall|b: usize| #[trigger] m1.has(b) <==> (m0.has(b) || b == t)
    &&& forall|b: usize, j: int| #![trigger m1.entry(b, j)] m1.has(b) && 0 <= j < 512 && !(b == table && j == index)
        ==> m1.entry(b, j) == (if m0.has(b) { m0.entry(b, j) } else { 0 })
}

/// Frame `g` is free and not `f`.
pub open spec fn free_except(words: Seq<u64>, f: int) -> spec_fn(int) -> bool {
    |g: int| !frame_used(words, g) && g != f
}

/// The lowest free frame other than `f`.
pub open spec fn first_free_except(words: Seq<u64>, f: int) -> Option<int> {
    crate::utils::first_index(words.len() * 64 as int, free_except(words, f))
}

/// What a mapping of `va` to `pa` with `flags` did to the tables, walking
/// through the level-1 table `t1` and the level-0 table `t0`: an empty root
/// entry got a new table (the lowest free frame) and an empty level-1 entry
/// got one (the lowest free frame left), each pointed at by `pa_to_pte(t) |
/// PRESENT`; otherwise the walk followed the existing pointers. The level-0
/// entry holds `leaf_entry(pa, flags)`. No other entry changed, and the new
/// tables hold zeros elsewhere.
pub open spec fn mapped_as(
    m0: &PageTableMemory,
    m1: &PageTableMemory,
    a0: &FrameAllocator,
    root: usize,
    va: usize,
    pa: usize,
    flags: u64,
    t1: usize,
    t0: usize,
) -> bool {
    let i2 = pt_index(va, 2);
    let i1 = pt_index(va, 1);
    let i0 = pt_index(va, 0);
    let e2 = m0.entry(root, i2);
    let new1 = is_empty_entry(e2);
    let new0 = new1 || is_empty_entry(m0.entry(t1, i1));
    let w = a0.bitmap.words@;
    let base = a0.bitmap.base as int;
    &&& !new1 ==> is_pointer(e2) && t1 == pte_to_pa(e2) && m0.has(t1)
    &&& new1 ==> !m0.has(t1) && t1 == frame_addr(base, first_free(w)->Some_0)
        && m1.entry(root, i2) == pa_to_pte(t1) | PRESENT
    &&& !new0 ==> is_pointer(m0.entry(t1, i1)) && t0 == pte_to_pa(m0.entry(t1, i1)) && m0.has(t0)
    &&& new0 ==> !m0.has(t0) && t0 != t1 && m1.entry(t1, i1) == pa_to_pte(t0) | PRESENT
    &&& new0 && !new1 ==> t0 == frame_addr(base, first_free(w)->Some_0)
    &&& new0 && new1 ==> t0 == frame_addr(base, first_free_except(w, first_free(w)->Some_0)->Some_0)
    &&& m1.entry(t0, i0) == leaf_entry(pa, flags)
    &&& forall|b: usize| #[trigger] m1.has(b) <==> (m0.has(b) || (new1 && b == t1) || (new0 && b == t0))
    &&& forall|b: usize, j: int| #![trigger m1.entry(b, j)]
        m1.has(b) && 0 <= j < 512 && !(new1 && b == root && j == i2) && !(new0 && b == t1 && j == i1) && !(b == t0 && j == i0)
            ==> m1.entry(b, j) == (if m0.has(b) { m0.entry(b, j) } else { 0 })
}

/// The entry a mapping writes at the end of the walk keeps every flag bit
/// asked for and sets V, A and D; for flags within the low ten bits it is
/// exactly the physical page number of `pa` in bits 10 to 53, those flags
/// and V, A, D, and nothing else.
pub proof fn law_mapped_leaf(
    m0: &PageTableMemory,
    m1: &PageTableMemory,
    a0: &FrameAllocator,
    root: usize,
    va: usize,
    pa: usize,
    flags: u64,
    t1: usize,
    t0: usize,
)
    requires
        mapped_as(m0, m1, a0, root, va, pa, flags, t1, t0),
    ensures
        ({
            let e = m1.entry(t0, pt_index(va, 0));
            &&& e & flags == flags
            &&& e & 0xc1u64 == 0xc1u64
            &&& flags < 1024 && (pa >> 12usize) as int <= 0xfff_ffff_ffff ==> {
                &&& (e >> 10u64) & 0xfff_ffff_ffffu64 == (pa >> 12usize) as u64
                &&& e & 0x3ffu64 == flags | 0xc1u64
                &&& e >> 54u64 == 0
            }
        }),
{
    let e = m1.entry(t0, pt_index(va, 0));
    let ppn: u64 = (pa >> 12usize) as u64;
    assert(e == (ppn << 10u64) | flags | 1u64 | 64u64 | 128u64);
    assert(e & flags == flags && e & 0xc1u64 == 0xc1u64) by (bit_vector)
        requires
            e == (ppn << 10u64) | flags | 1u64 | 64u64 | 128u64,
    ;
    if flags < 1024 && (pa >> 12usize) as int <= 0xfff_ffff_ffff {
        assert(ppn <= 0xfff_ffff_ffffu64);
        assert((e >> 10u64) & 0xfff_ffff_ffffu64 == ppn && e & 0x3ffu64 == flags | 0xc1u64 && e >> 54u64 == 0) by (bit_vector)
            requires
                e == (ppn << 10u64) | flags | 1u64 | 64u64 | 128u64,
                flags < 1024,
                ppn <= 0xfff_ffff_ffffu64,
        ;
    }
}

/// What a mapping that ran out of frames left: a new table (the lowest
/// free frame) hung at the empty root entry, and nothing else.
pub open spec fn root_table_added(m0: &PageTableMemory, m1: &PageTableMemory, a0: &FrameAllocator, root: usize, va: usize, t1: usize) -> bool {
    &&& is_empty_entry(m0.entry(root, pt_index(va, 2)))
    &&& t1 == frame_addr(a0.bitmap.base as int, first_free(a0.bitmap.words@)->Some_0)
    &&& hung_at(m0, m1, root, pt_index(va, 2), t1)
}

/// Once frame `f` is taken, the lowest free frame is the lowest one that
/// was free before other than `f`.
proof fn lemma_first_free_after_take(w0: Seq<u64>, w1: Seq<u64>, f: int)
    requires
        w1.len() == w0.len(),
        forall|g: int| 0 <= g < w0.len() * 64 ==> #[trigger] frame_used(w1, g) == (g == f || frame_used(w0, g)),
    ensures
        first_free(w1) == first_free_except(w0, f),
{
    let n = w0.len() * 64 as int;
    let p1 = |g: int| !frame_used(w1, g);
    let p2 = free_except(w0, f);
    assert forall|j: int| crate::utils::is_first(n, p1, j) <==> crate::utils::is_first(n, p2, j) by {
        if 0 <= j < n {
            assert(p1(j) == p2(j));
            if crate::utils::is_first(n, p1, j) {
                assert forall|k: int| 0 <= k < j implies !#[trigger] p2(k) by {
                    assert(!p1(k));
                }
            }
            if crate::utils::is_first(n, p2, j) {
                assert forall|k: int| 0 <= k < j implies !#[trigger] p1(k) by {
                    assert(!p2(k));
                }
            }
        }
    }
    assert(p1 == (|f: int| !frame_used(w1, f)));
    assert(first_free(w1) == crate::utils::first_index(n, p1));
    if exists|j: int| crate::utils::is_first(n, p1, j) {
        let c = choose|j: int| crate::utils::is_first(n, p1, j);
        crate::utils::lemma_first_index_is(n, p1, c);
        crate::utils::lemma_first_index_is(n, p2, c);
    } else {
        assert(!exists|j: int| crate::utils::is_first(n, p2, j));
    }
}

/// Two steps of a mapping and the final write compose to `mapped_as`'s
/// account of the tables.
proof fn lemma_map_frame(
    m0: &PageTableMemory,
    m1: &PageTableMemory,
    m2: &PageTableMemory,
    m3: &PageTableMemory,
    root: usize,
    i2: int,
    i1: int,
    i0: int,
    t1: usize,
    t0: usize,
    leaf: u64,
)
    requires
        m0.has(root),
        0 <= i2 < 512,
        0 <= i1 < 512,
        0 <= i0 < 512,
        is_empty_entry(m0.entry(root, i2)) ==> hung_at(m0, m1, root, i2, t1),
        !is_empty_entry(m0.entry(root, i2)) ==> m1.addrs@ == m0.addrs@ && m1.entries@ == m0.entries@ && m0.has(t1),
        ({
            let new0 = is_empty_entry(m0.entry(root, i2)) || is_empty_entry(m0.entry(t1, i1));
            &&& new0 ==> hung_at(m1, m2, t1, i1, t0)
            &&& !new0 ==> m2.addrs@ == m1.addrs@ && m2.entries@ == m1.entries@ && m1.has(t0)
        }),
        m3.addrs@ == m2.addrs@,
        m3.entry(t0, i0) == leaf,
        forall|b: usize, j: int| #![trigger m3.entry(b, j)] m2.has(b) && 0 <= j < 512 && !(b == t0 && j == i0)
            ==> m3.entry(b, j) == m2.entry(b, j),
    ensures
        ({
            let new1 = is_empty_entry(m0.entry(root, i2));
            let new0 = new1 || is_empty_entry(m0.entry(t1, i1));
            &&& new1 ==> m3.entry(root, i2) == pa_to_pte(t1) | PRESENT
            &&& new0 ==> m3.entry(t1, i1) == pa_to_pte(t0) | PRESENT && !m0.has(t0) && t0 != t1
            &&& forall|b: usize| #[trigger] m3.has(b) <==> (m0.has(b) || (new1 && b == t1) || (new0 && b == t0))
            &&& forall|b: usize, j: int| #![trigger m3.entry(b, j)]
                m3.has(b) && 0 <= j < 512 && !(new1 && b == root && j == i2) && !(new0 && b == t1 && j == i1) && !(b == t0 && j == i0)
                    ==> m3.entry(b, j) == (if m0.has(b) { m0.entry(b, j) } else { 0 })
        }),
{
    let new1 = is_empty_entry(m0.entry(root, i2));
    let new0 = new1 || is_empty_entry(m0.entry(t1, i1));
    assert forall|b: usize| #[trigger] m3.has(b) == m2.has(b) by {}
    assert forall|b: usize| #[trigger] m1.has(b) <==> (m0.has(b) || (new1 && b == t1)) by {
        if !new1 {
            assert(m1.has(b) == m0.has(b));
        }
    }
    assert forall|b: usize| #[trigger] m2.has(b) <==> (m1.has(b) || (new0 && b == t0)) by {
        if !new0 {
            assert(m2.has(b) == m1.has(b));
        }
    }
    if new1 {
        assert(t1 != root);
        assert(m2.entry(root, i2) == m1.entry(root, i2));
        assert(new0) by {
            assert(m1.entry(t1, i1) == 0);
        }
    }
    if new0 {
        assert(m1.has(t1));
        assert(!m0.has(t0));
        assert(t0 != t1);
    }
    assert forall|b: usize, j: int| #![trigger m3.entry(b, j)]
        m3.has(b) && 0 <= j < 512 && !(new1 && b == root && j == i2) && !(new0 && b == t1 && j == i1) && !(b == t0 && j == i0)
            implies m3.entry(b, j) == (if m0.has(b) { m0.entry(b, j) } else { 0 }) by {
        assert(m3.entry(b, j) == m2.entry(b, j));
        if new0 {
            if b == t0 {
                assert(m2.entry(b, j) == 0);
                assert(!m0.has(b));
            } else {
                assert(m2.entry(b, j) == m1.entry(b, j));
            }
        } else {
            assert(m2.entry(b, j) == m1.entry(b, j));
        }
        if b != t0 || !new0 {
            if new1 {
                assert(m1.entry(b, j) == (if m0.has(b) { m0.entry(b, j) } else { 0 }));
            } else {
                assert(m1.entry(b, j) == m0.entry(b, j));
            }
        }
    }
    if new0 {
        assert(m3.entry(t1, i1) == m2.entry(t1, i1));
    }
}

/// Follows entry `index` of the table at `table` one level down: a pointer
/// is followed; an empty entry gets a fresh zeroed table from the
/// allocator and is pointed at it; a leaf or reserved entry stops the walk.
fn descend(mem: &mut PageTableMemory, alloc: &mut FrameAllocator, table: usize, index: usize) -> (r: Result<usize, PagingError>)
    requires
        old(mem).wf(),
        old(alloc).wf(),
        old(mem).has(table),
        index < 512,
        is_pointer(old(mem).entry(table, index as int)) ==> old(mem).has(pte_to_pa(old(mem).entry(table, index as int))),
        tables_not_free(old(mem), old(alloc)),
    ensures
        final(mem).wf(),
        final(alloc).wf(),
        tables_not_free(final(mem), final(alloc)),
        extends(old(mem), final(mem)),
        allocated_tables(old(mem), final(mem), old(alloc), final(alloc)),
        old(mem).walkable() && sv39_addressable(old(alloc)) ==> final(mem).walkable(),
        ({
            let e = old(mem).entry(table, index as int);
            let w = old(alloc).bitmap.words@;
            let fr = old(alloc).bitmap.frames as int;
            &&& is_pointer(e) ==> r == Ok::<usize, PagingError>(pte_to_pa(e)) && unchanged(old(mem), final(mem), old(alloc), final(alloc))
            &&& !is_pointer(e) && !is_empty_entry(e) ==> r == Err::<usize, PagingError>(PagingError::AlreadyMapped)
                && unchanged(old(mem), final(mem), old(alloc), final(alloc))
            &&& is_empty_entry(e) && !has_free(w, fr) ==> r == Err::<usize, PagingError>(PagingError::OutOfFrames)
                && unchanged(old(mem), final(mem), old(alloc), final(alloc))
            &&& is_empty_entry(e) && has_free(w, fr) ==> (r matches Ok(t) && {
                &&& !old(mem).has(t)
                &&& final(mem).has(t)
                &&& forall|j: int| 0 <= j < 512 ==> #[trigger] final(mem).entry(t, j) == 0
                &&& final(mem).entry(table, index as int) == pa_to_pte(t) | PRESENT
                &&& forall|b: usize| #[trigger] final(mem).has(b) <==> (old(mem).has(b) || b == t)
                &&& forall|b: usize, j: int| #![trigger final(mem).entry(b, j)] old(mem).has(b) && 0 <= j < 512
                    && !(b == table && j == index) ==> final(mem).entry(b, j) == old(mem).entry(b, j)
                &&& first_free(w) matches Some(f) && t == frame_addr(old(alloc).bitmap.base as int, f)
                &&& sv39_addressable(old(alloc)) ==> pte_to_pa(final(mem).entry(table, index as int)) == t
                    && is_pointer(final(mem).entry(table, index as int))
            })
        }),
{
    let entry = read_page_table_entry(mem, table, index);
    match classify_page_table_entry(entry) {
        PageTableEntryKind::NotPresent => {
            proof {
                lemma_first_free_below(alloc.bitmap.words@, alloc.bitmap.frames as int);
            }
            let ghost a0 = *alloc;
            let ghost m0 = *mem;
            let new_table = match alloc.alloc_frame() {
                Ok(t) => t,
                Err(_) => { return Err(PagingError::OutOfFrames); },
            };
            let ghost f = first_free(a0.bitmap.words@)->Some_0;
            let ghost base = a0.bitmap.base as int;
            proof {
                assert(!m0.has(frame_addr(base, f) as usize));
                lemma_frame_addr(base, f, f);
            }
            mem.zero_table(new_table);
            let ghost m1 = *mem;
            write_page_table_entry(mem, table, index, physical_address_to_page_table_entry(new_table) | PRESENT);
            proof {
                assert(mem.addrs@ == m1.addrs@);
                assert forall|b: usize| #[trigger] mem.has(b) <==> (m0.has(b) || b == new_table) by {
                    assert(mem.has(b) == m1.has(b));
                    assert(m1.has(b) <==> (m0.has(b) || b == new_table));
                }
                assert(forall|g: int| 0 <= g < a0.bitmap.words@.len() * 64 ==> #[trigger] frame_used(alloc.bitmap.words@, g)
                    == (g == f || frame_used(a0.bitmap.words@, g)));
                assert forall|g: int| 0 <= g < a0.bitmap.words@.len() * 64 implies #[trigger] frame_used(alloc.bitmap.words@, g)
                    == (frame_used(a0.bitmap.words@, g) || (g < a0.bitmap.frames
                        && mem.has(frame_addr(base, g) as usize) && !m0.has(frame_addr(base, g) as usize))) by {
                    lemma_frame_addr(base, g, f);
                    if g < a0.bitmap.frames && g != f {
                        assert(frame_addr(base, g) <= usize::MAX);
                        assert(frame_addr(base, g) as usize != new_table);
                        assert(mem.has(frame_addr(base, g) as usize) == m0.has(frame_addr(base, g) as usize));
                    }
                }
                assert forall|g: int| 0 <= g < alloc.bitmap.frames && !frame_used(alloc.bitmap.words@, g)
                    implies !mem.has(#[trigger] frame_addr(alloc.bitmap.base as int, g) as usize) by {
                    lemma_frame_addr(base, g, f);
                    assert(frame_addr(base, g) <= usize::MAX);
                    assert(!m0.has(frame_addr(base, g) as usize));
                }
                assert forall|a: usize, j: int| #![trigger mem.entry(a, j)] #![trigger m0.entry(a, j)]
                    m0.has(a) && 0 <= j < 512 implies mem.has(a) && (classify_spec(m0.entry(a, j)) != PageTableEntryKind::NotPresent
                        ==> mem.entry(a, j) == m0.entry(a, j)) by {
                    assert(m1.has(a));
                    assert(a != new_table);
                    assert(m1.entry(a, j) == m0.entry(a, j));
                    if !(a == table && j == index) {
                        assert(mem.entry(a, j) == m1.entry(a, j));
                    }
                }
                if sv39_addressable(&a0) {
                    lemma_pointer_encoding(new_table);
                    lemma_zero_entry();
                    if m0.walkable() {
                        assert forall|a: usize, j: int| #![trigger mem.entry(a, j)]
                            mem.has(a) && 0 <= j < 512 && classify_spec(mem.entry(a, j)) == PageTableEntryKind::NextTablePointer
                                implies mem.has(pte_to_pa(mem.entry(a, j))) by {
                            if a == new_table {
                                assert(mem.entry(a, j) == 0);
                            } else if a == table && j == index {
                            } else {
                                assert(mem.entry(a, j) == m0.entry(a, j));
                                assert(m0.has(pte_to_pa(m0.entry(a, j))));
                            }
                        }
                    }
                }
            }
            Ok(new_table)
        },
        PageTableEntryKind::NextTablePointer => {
            Ok(page_table_entry_to_physical_address(entry))
        },
        PageTableEntryKind::Leaf | PageTableEntryKind::ReservedWritableWithoutRead => {
            Err(PagingError::AlreadyMapped)
        },
    }
}


/// Existing translations survive any change that keeps every table and
/// every entry in use.
pub proof fn lemma_translate_preserved(m1: &PageTableMemory, m2: &PageTableMemory, root: usize, v: usize)
    requires
        m1.walkable(),
        m1.has(root),
        extends(m1, m2),
        translate(m1, root, v) is Some,
    ensures
        translate(m2, root, v) == translate(m1, root, v),
{
    let i2 = pt_index(v, 2);
    let i1 = pt_index(v, 1);
    let i0 = pt_index(v, 0);
    assert(0 <= i2 < 512 && 0 <= i1 < 512 && 0 <= i0 < 512) by {
        lemma_index_range(v);
    }
    let e2 = m1.entry(root, i2);
    assert(m2.entry(root, i2) == e2);
    let t1 = pte_to_pa(e2);
    assert(m1.has(t1));
    let e1 = m1.entry(t1, i1);
    assert(m2.entry(t1, i1) == e1);
    let t0 = pte_to_pa(e1);
    assert(m1.has(t0));
    assert(m2.entry(t0, i0) == m1.entry(t0, i0));
}

/// Every translation of `m1` survives in `m2`.
pub proof fn lemma_all_translations_preserved(m1: &PageTableMemory, m2: &PageTableMemory, root: usize)
    requires
        m1.walkable(),
        m1.has(root),
        extends(m1, m2),
    ensures
        forall|v: usize| #[trigger] translate(m1, root, v) is Some ==> translate(m2, root, v) == translate(m1, root, v),
{
    assert forall|v: usize| #[trigger] translate(m1, root, v) is Some implies translate(m2, root, v) == translate(m1, root, v) by {
        lemma_translate_preserved(m1, m2, root, v);
    }
}

proof fn lemma_index_range(v: usize)
    ensures
        0 <= pt_index(v, 2) < 512,
        0 <= pt_index(v, 1) < 512,
        0 <= pt_index(v, 0) < 512,
{
    assert((v >> 30usize) & 511usize < 512) by (bit_vector);
    assert((v >> 21usize) & 511usize < 512) by (bit_vector);
    assert((v >> 12usize) & 511usize < 512) by (bit_vector);
}

proof fn lemma_extends_trans(m1: &PageTableMemory, m2: &PageTableMemory, m3: &PageTableMemory)
    requires
        extends(m1, m2),
        extends(m2, m3),
    ensures
        extends(m1, m3),
{
    assert forall|a: usize, j: int| #![trigger m3.entry(a, j)] #![trigger m1.entry(a, j)]
        m1.has(a) && 0 <= j < 512 implies m3.has(a) && (classify_spec(m1.entry(a, j)) != PageTableEntryKind::NotPresent
            ==> m3.entry(a, j) == m1.entry(a, j)) by {
        assert(m2.has(a));
        assert(m3.has(a) && (classify_spec(m2.entry(a, j)) != PageTableEntryKind::NotPresent ==> m3.entry(a, j) == m2.entry(a, j)));
        if classify_spec(m1.entry(a, j)) != PageTableEntryKind::NotPresent {
            assert(m2.entry(a, j) == m1.entry(a, j));
        }
    }
}

/// Once the lowest free frame is taken, another free frame is left exactly
/// when there were two.
proof fn lemma_second_free(w1: Seq<u64>, w2: Seq<u64>, frames: int)
    requires
        0 <= frames <= w1.len() * 64,
        first_free(w1) matches Some(f) && f < frames,
        forall|g: int| 0 <= g < w1.len() * 64 ==> #[trigger] frame_used(w2, g) == (g == first_free(w1)->Some_0 || frame_used(w1, g)),
    ensures
        has_free(w2, frames) <==> has_two_free(w1, frames),
{
    let f = first_free(w1)->Some_0;
    lemma_first_free_below(w1, frames);
    if has_free(w2, frames) {
        let g = choose|g: int| 0 <= g < frames && !#[trigger] frame_used(w2, g);
        assert(!frame_used(w1, g) && g != f);
        if f < g {
            assert(!frame_used(w1, f) && !frame_used(w1, g));
        } else {
            assert(!frame_used(w1, g) && !frame_used(w1, f));
        }
    }
    if has_two_free(w1, frames) {
        let (g, h) = choose|g: int, h: int| 0 <= g < h < frames && !#[trigger] frame_used(w1, g) && !#[trigger] frame_used(w1, h);
        if g != f {
            assert(!frame_used(w2, g));
        } else {
            assert(!frame_used(w2, h));
        }
    }
}

proof fn lemma_two_free_has_free(w: Seq<u64>, frames: int)
    ensures
        has_two_free(w, frames) ==> has_free(w, frames),
{
    if has_two_free(w, frames) {
        let (g, h) = choose|g: int, h: int| 0 <= g < h < frames && !#[trigger] frame_used(w, g) && !#[trigger] frame_used(w, h);
        assert(!frame_used(w, g));
    }
}

/// Maps the 4 KiB virtual page at `virtual_address` to the physical page
/// at `physical_address` with `flags` (plus V, A and D) in the Sv39 tables
/// rooted at `root_table`, taking missing intermediate tables from `alloc`.
/// Refuses unaligned or non-canonical addresses, a physical page number
/// wider than an entry holds, and a page whose walk meets a mapping.
#[verifier::rlimit(60)]
pub fn map_virtual_to_physical(
    mem: &mut PageTableMemory,
    alloc: &mut FrameAllocator,
    root_table: usize,
    virtual_address: usize,
    physical_address: usize,
    flags: u64,
) -> (r: Result<(), PagingError>)
    requires
        old(mem).wf(),
        old(mem).walkable(),
        old(mem).has(root_table),
        old(alloc).wf(),
        tables_not_free(old(mem), old(alloc)),
    ensures
        final(mem).wf(),
        final(alloc).wf(),
        final(mem).has(root_table),
        tables_not_free(final(mem), final(alloc)),
        extends(old(mem), final(mem)),
        allocated_tables(old(mem), final(mem), old(alloc), final(alloc)),
        !valid_request(virtual_address, physical_address)
            ==> r == Err::<(), PagingError>(PagingError::InvalidAddress) && unchanged(old(mem), final(mem), old(alloc), final(alloc)),
        valid_request(virtual_address, physical_address) && blocked(old(mem), root_table, virtual_address)
            ==> r == Err::<(), PagingError>(PagingError::AlreadyMapped) && unchanged(old(mem), final(mem), old(alloc), final(alloc)),
        valid_request(virtual_address, physical_address) && !blocked(old(mem), root_table, virtual_address)
            && !enough_free(old(alloc), tables_needed(old(mem), root_table, virtual_address))
            ==> r == Err::<(), PagingError>(PagingError::OutOfFrames),
        valid_request(virtual_address, physical_address) && !blocked(old(mem), root_table, virtual_address)
            && enough_free(old(alloc), tables_needed(old(mem), root_table, virtual_address)) ==> r is Ok,
        r is Ok ==> exists|t1: usize, t0: usize|
            mapped_as(old(mem), final(mem), old(alloc), root_table, virtual_address, physical_address, flags, t1, t0),
        r == Err::<(), PagingError>(PagingError::OutOfFrames) && is_empty_entry(old(mem).entry(root_table, pt_index(virtual_address, 2)))
            && has_free(old(alloc).bitmap.words@, old(alloc).bitmap.frames as int)
            ==> exists|t1: usize| root_table_added(old(mem), final(mem), old(alloc), root_table, virtual_address, t1),
        r == Err::<(), PagingError>(PagingError::OutOfFrames) && !(is_empty_entry(old(mem).entry(root_table, pt_index(virtual_address, 2)))
            && has_free(old(alloc).bitmap.words@, old(alloc).bitmap.frames as int))
            ==> unchanged(old(mem), final(mem), old(alloc), final(alloc)),
        forall|v: usize| #[trigger] translate(old(mem), root_table, v) is Some
            ==> translate(final(mem), root_table, v) == translate(old(mem), root_table, v),
        (sv39_addressable(old(alloc)) || tables_needed(old(mem), root_table, virtual_address) == 0) && r is Ok
            ==> translate(final(mem), root_table, virtual_address) == mapped_translation(physical_address, flags),
        sv39_addressable(old(alloc)) && r == Err::<(), PagingError>(PagingError::OutOfFrames)
            ==> translate(final(mem), root_table, virtual_address) is None,
        (sv39_addressable(old(alloc)) || tables_needed(old(mem), root_table, virtual_address) == 0)
            && !is_pointer(leaf_entry(physical_address, flags)) ==> final(mem).walkable(),
{
    if virtual_address % PAGE_SIZE != 0 || physical_address % PAGE_SIZE != 0 {
        return Err(PagingError::InvalidAddress);
    }
    if !is_canonical(virtual_address) {
        return Err(PagingError::InvalidAddress);
    }
    if (physical_address >> PAGE_SHIFT) as u64 > PAGE_TABLE_ENTRY_PHYSICAL_PAGE_NUMBER_MASK {
        return Err(PagingError::InvalidAddress);
    }
    let ghost m0 = *mem;
    let ghost a0 = *alloc;
    let ghost va = virtual_address;
    proof {
        lemma_index_range(va);
        lemma_zero_entry();
        lemma_two_free_has_free(a0.bitmap.words@, a0.bitmap.frames as int);
        lemma_first_free_below(a0.bitmap.words@, a0.bitmap.frames as int);
    }

    let i2 = page_table_index(virtual_address, 2);
    let t1 = match descend(mem, alloc, root_table, i2) {
        Ok(t) => t,
        Err(e) => {
            proof {
                lemma_extends_refl(&m0, mem);
                lemma_all_translations_preserved(&m0, mem, root_table);
            }
            return Err(e);
        },
    };
    let ghost m1 = *mem;
    let ghost a1 = *alloc;
    let ghost new1 = is_empty_entry(m0.entry(root_table, i2 as int));
    let ghost f1 = first_free(a0.bitmap.words@)->Some_0;
    proof {
        assert(new1 ==> hung_at(&m0, &m1, root_table, i2 as int, t1) && t1 == frame_addr(a0.bitmap.base as int, f1));
        assert(!new1 ==> m1.addrs@ == m0.addrs@ && m1.entries@ == m0.entries@ && is_pointer(m0.entry(root_table, i2 as int))
            && t1 == pte_to_pa(m0.entry(root_table, i2 as int)) && m0.has(t1) && a1.bitmap.words@ == a0.bitmap.words@);
        if new1 {
            lemma_second_free(a0.bitmap.words@, a1.bitmap.words@, a0.bitmap.frames as int);
            lemma_first_free_after_take(a0.bitmap.words@, a1.bitmap.words@, f1);
            lemma_first_free_below(a1.bitmap.words@, a1.bitmap.frames as int);
        } else {
            lemma_first_free_below(a1.bitmap.words@, a1.bitmap.frames as int);
        }
    }

    let i1 = page_table_index(virtual_address, 1);
    proof {
        assert(new1 ==> m1.has(t1) && m1.entry(t1, i1 as int) == 0);
        assert(!new1 ==> m1.entry(t1, i1 as int) == m0.entry(t1, i1 as int));
    }
    let ghost new0 = new1 || is_empty_entry(m0.entry(t1, i1 as int));
    let t0 = match descend(mem, alloc, t1, i1) {
        Ok(t) => t,
        Err(e) => {
            proof {
                lemma_extends_trans(&m0, &m1, mem);
                lemma_all_translations_preserved(&m0, mem, root_table);
                if new1 && e == PagingError::OutOfFrames {
                    assert(mem.addrs@ == m1.addrs@ && mem.entries@ == m1.entries@);
                    assert forall|b: usize| #[trigger] mem.has(b) == m1.has(b) by {}
                    assert(hung_at(&m0, mem, root_table, i2 as int, t1));
                    assert(root_table_added(&m0, mem, &a0, root_table, va, t1));
                }
            }
            return Err(e);
        },
    };
    let ghost m2 = *mem;
    proof {
        lemma_extends_trans(&m0, &m1, &m2);
        assert(new0 == is_empty_entry(m1.entry(t1, i1 as int)));
        assert(new0 ==> hung_at(&m1, &m2, t1, i1 as int, t0)
            && t0 == frame_addr(a0.bitmap.base as int, first_free(a1.bitmap.words@)->Some_0));
        assert(!new0 ==> m2.addrs@ == m1.addrs@ && m2.entries@ == m1.entries@ && is_pointer(m1.entry(t1, i1 as int))
            && t0 == pte_to_pa(m1.entry(t1, i1 as int)) && m1.has(t0));
    }

    let i0 = page_table_index(virtual_address, 0);
    let entry = read_page_table_entry(mem, t0, i0);
    match classify_page_table_entry(entry) {
        PageTableEntryKind::NotPresent => {
            write_page_table_entry(
                mem,
                t0,
                i0,
                physical_address_to_page_table_entry(physical_address) | flags | PRESENT | ACCESSED | DIRTY,
            );
            proof {
                assert(mem.addrs@ == m2.addrs@);
                assert forall|b: usize| #[trigger] mem.has(b) == m2.has(b) by {}
                assert(extends(&m2, mem)) by {
                    assert forall|a: usize, j: int| #![trigger mem.entry(a, j)] #![trigger m2.entry(a, j)]
                        m2.has(a) && 0 <= j < 512 implies mem.has(a) && (classify_spec(m2.entry(a, j)) != PageTableEntryKind::NotPresent
                            ==> mem.entry(a, j) == m2.entry(a, j)) by {}
                }
                lemma_extends_trans(&m0, &m2, mem);
                assert forall|g: int| 0 <= g < a0.bitmap.words@.len() * 64 implies #[trigger] frame_used(alloc.bitmap.words@, g)
                    == (frame_used(a0.bitmap.words@, g) || (g < a0.bitmap.frames
                        && mem.has(frame_addr(a0.bitmap.base as int, g) as usize) && !m0.has(frame_addr(a0.bitmap.base as int, g) as usize))) by {
                    assert(mem.has(frame_addr(a0.bitmap.base as int, g) as usize) == m2.has(frame_addr(a0.bitmap.base as int, g) as usize));
                }
                assert forall|g: int| 0 <= g < alloc.bitmap.frames && !frame_used(alloc.bitmap.words@, g)
                    implies !mem.has(#[trigger] frame_addr(alloc.bitmap.base as int, g) as usize) by {
                    assert(mem.has(frame_addr(a0.bitmap.base as int, g) as usize) == m2.has(frame_addr(a0.bitmap.base as int, g) as usize));
                }
                lemma_all_translations_preserved(&m0, mem, root_table);
                lemma_map_frame(&m0, &m1, &m2, mem, root_table, i2 as int, i1 as int, i0 as int, t1, t0,
                    leaf_entry(physical_address, flags));
                assert(mapped_as(&m0, mem, &a0, root_table, va, physical_address, flags, t1, t0));
                if sv39_addressable(&a0) || tables_needed(&m0, root_table, va) == 0 {
                    assert(mem.entry(root_table, i2 as int) == m1.entry(root_table, i2 as int));
                    assert(mem.entry(t1, i1 as int) == m2.entry(t1, i1 as int));
                    if !is_pointer(leaf_entry(physical_address, flags)) {
                        assert forall|a: usize, j: int| #![trigger mem.entry(a, j)]
                            mem.has(a) && 0 <= j < 512 && classify_spec(mem.entry(a, j)) == PageTableEntryKind::NextTablePointer
                                implies mem.has(pte_to_pa(mem.entry(a, j))) by {
                            if !(a == t0 && j == i0) {
                                assert(mem.entry(a, j) == m2.entry(a, j));
                            }
                        }
                    }
                }
            }
            Ok(())
        },
        _ => {
            proof {
                lemma_extends_refl(&m2, mem);
                lemma_extends_trans(&m0, &m2, mem);
                lemma_all_translations_preserved(&m0, mem, root_table);
            }
            Err(PagingError::AlreadyMapped)
        },
    }
}

proof fn lemma_extends_refl(m1: &PageTableMemory, m2: &PageTableMemory)
    requires
        m2.addrs@ == m1.addrs@,
        m2.entries@ == m1.entries@,
    ensures
        extends(m1, m2),
{
}

} // verus!
