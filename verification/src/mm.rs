//! Physical memory: the usable RAM ranges and the one-bit-per-frame
//! allocator built over them.
use vstd::prelude::*;
use crate::fdt::{Fdt, Resource};
use crate::fdt_query::{get_node_idx_by_prop_name_and_val, get_resource, get_reserved, fdt_total_size,
    prop_lists, resource_spec, lemma_resource_idx_bound, prop_value_by_name, parent_prop_value, name_reg,
    name_address_cells, name_size_cells};
use crate::utils::{first_index, is_first, lemma_first_index_is, lemma_first_index_none, lemma_bit_set,
    lemma_bit_clear, lemma_all_ones};

verus! {

pub const PAGE_SIZE: usize = 4096;
pub const BITS_PER_WORD: usize = 64;
pub const MAX_USABLE_RANGES: usize = 16;

/// Why a memory-manager operation failed.
#[derive(PartialEq, Eq, Structural, Clone, Copy, Debug)]
pub enum MMError {
    InitError,
    AllocFrameError,
    FreeFrameError,
}

/// Half-open physical range [start, end).
#[derive(PartialEq, Eq, Structural, Clone, Copy, Debug)]
pub struct Range {
    pub start: usize,
    pub end: usize,
}

// ---------------------------------------------------------------- usable ranges

/// A list of at most `MAX_USABLE_RANGES` ranges.
pub struct UsableRanges {
    pub ranges: Vec<Range>,
}

/// Address `x` lies in one of the ranges.
pub open spec fn covers(rs: Seq<Range>, x: int) -> bool {
    exists|i: int| 0 <= i < rs.len() && (#[trigger] rs[i]).start <= x < rs[i].end
}

/// What is left of `r` once the hole [hs, he) is taken out: nothing, `r`
/// itself, or the part below the hole and the part above it.
pub open spec fn subtract_pieces(r: Range, hs: int, he: int) -> Seq<Range> {
    if he <= r.start || hs >= r.end {
        seq![r]
    } else {
        (if r.start < hs { seq![Range { start: r.start, end: hs as usize }] } else { Seq::empty() })
            + (if he < r.end { seq![Range { start: he as usize, end: r.end }] } else { Seq::empty() })
    }
}

/// The pieces of every range of `rs`, in order, once the hole is taken out.
pub open spec fn subtract_all(rs: Seq<Range>, hs: int, he: int) -> Seq<Range>
    decreases rs.len(),
{
    if rs.len() == 0 {
        Seq::empty()
    } else {
        subtract_all(rs.drop_last(), hs, he) + subtract_pieces(rs.last(), hs, he)
    }
}

/// The ranges once [hs, he) is taken out of every one of them: unchanged
/// for an empty hole, refused when more pieces result than the list holds.
pub open spec fn subtract_spec(rs: Seq<Range>, hs: int, he: int) -> Result<Seq<Range>, MMError> {
    if hs >= he {
        Ok(rs)
    } else if subtract_all(rs, hs, he).len() > MAX_USABLE_RANGES {
        Err(MMError::InitError)
    } else {
        Ok(subtract_all(rs, hs, he))
    }
}

impl UsableRanges {
    pub open spec fn view(&self) -> Seq<Range> {
        self.ranges@
    }

    pub open spec fn wf(&self) -> bool {
        self.ranges@.len() <= MAX_USABLE_RANGES
    }

    /// An empty list.
    pub fn new() -> (r: Self)
        ensures
            r@ == Seq::<Range>::empty(),
            r.wf(),
    {
        UsableRanges { ranges: Vec::new() }
    }

    /// Appends [start, end) to the list. Fails when the list is full.
    pub fn push(&mut self, r: Range) -> (res: Result<(), MMError>)
        requires
            old(self).wf(),
        ensures
            final(self).wf(),
            old(self)@.len() == MAX_USABLE_RANGES ==> res == Err::<(), MMError>(MMError::InitError)
                && final(self)@ == old(self)@,
            old(self)@.len() < MAX_USABLE_RANGES ==> res is Ok && final(self)@ == old(self)@.push(r),
    {
        if self.ranges.len() == MAX_USABLE_RANGES {
            return Err(MMError::InitError);
        }
        self.ranges.push(r);
        Ok(())
    }

    /// Removes [hole_start, hole_end) from every range.
    pub fn subtract(&mut self, hole_start: usize, hole_end: usize) -> (res: Result<(), MMError>)
        requires
            old(self).wf(),
        ensures
            final(self).wf(),
            res is Ok <==> subtract_spec(old(self)@, hole_start as int, hole_end as int) is Ok,
            res is Ok ==> final(self)@ == subtract_spec(old(self)@, hole_start as int, hole_end as int)->Ok_0,
            res is Err ==> res == Err::<(), MMError>(MMError::InitError) && final(self)@ == old(self)@,
    {
        if hole_start >= hole_end {
            return Ok(());
        }
        let mut out = Self::new();
        let mut i = 0usize;
        while i < self.ranges.len()
            invariant
                self.wf(),
                hole_start < hole_end,
                i <= self.ranges@.len(),
                out.wf(),
                out@ == subtract_all(self.ranges@.subrange(0, i as int), hole_start as int, hole_end as int),
            decreases self.ranges@.len() - i,
        {
            let r = self.ranges[i];
            proof {
                let pre = self.ranges@.subrange(0, i as int);
                let post = self.ranges@.subrange(0, i + 1);
                assert(post.drop_last() =~= pre);
                assert(post.last() == r);
                lemma_subtract_all_monotone(self.ranges@, i as int + 1, hole_start as int, hole_end as int);
            }
            if hole_end <= r.start || hole_start >= r.end {
                if out.push(r).is_err() {
                    return Err(MMError::InitError);
                }
            } else {
                if r.start < hole_start {
                    if out.push(Range { start: r.start, end: hole_start }).is_err() {
                        return Err(MMError::InitError);
                    }
                }
                if hole_end < r.end {
                    if out.push(Range { start: hole_end, end: r.end }).is_err() {
                        return Err(MMError::InitError);
                    }
                }
            }
            i = i + 1;
            proof {
                assert(out@ =~= subtract_all(self.ranges@.subrange(0, i as int), hole_start as int, hole_end as int));
            }
        }
        proof {
            assert(self.ranges@.subrange(0, i as int) =~= self.ranges@);
        }
        *self = out;
        Ok(())
    }

    /// The ranges in the list.
    pub fn get_ranges(&self) -> (r: &[Range])
        ensures
            r@ == self@,
    {
        self.ranges.as_slice()
    }
}

/// Taking the hole out of a longer prefix never leaves fewer pieces.
proof fn lemma_subtract_all_monotone(rs: Seq<Range>, n: int, hs: int, he: int)
    requires
        0 <= n <= rs.len(),
    ensures
        forall|m: int| 0 <= m <= n ==> #[trigger] subtract_all(rs.subrange(0, m), hs, he).len()
            <= subtract_all(rs.subrange(0, n), hs, he).len(),
        subtract_all(rs.subrange(0, n), hs, he).len() <= subtract_all(rs, hs, he).len(),
    decreases rs.len() - n,
{
    assert forall|m: int| 0 <= m <= n implies #[trigger] subtract_all(rs.subrange(0, m), hs, he).len()
        <= subtract_all(rs.subrange(0, n), hs, he).len() by {
        lemma_subtract_prefix(rs, m, n, hs, he);
    }
    lemma_subtract_prefix(rs, n, rs.len() as int, hs, he);
    assert(rs.subrange(0, rs.len() as int) =~= rs);
}

proof fn lemma_subtract_prefix(rs: Seq<Range>, m: int, n: int, hs: int, he: int)
    requires
        0 <= m <= n <= rs.len(),
    ensures
        subtract_all(rs.subrange(0, m), hs, he).len() <= subtract_all(rs.subrange(0, n), hs, he).len(),
    decreases n - m,
{
    if m < n {
        lemma_subtract_prefix(rs, m, n - 1, hs, he);
        assert(rs.subrange(0, n).drop_last() =~= rs.subrange(0, n - 1));
    }
}

/// Taking a hole out leaves exactly the addresses that were covered and
/// lie outside the hole.
pub proof fn lemma_subtract_covers(rs: Seq<Range>, hs: int, he: int, x: int)
    requires
        hs < he,
    ensures
        covers(subtract_all(rs, hs, he), x) <==> (covers(rs, x) && !(hs <= x < he)),
    decreases rs.len(),
{
    if rs.len() > 0 {
        let pre = rs.drop_last();
        let r = rs.last();
        let a = subtract_all(pre, hs, he);
        let p = subtract_pieces(r, hs, he);
        lemma_subtract_covers(pre, hs, he, x);
        lemma_covers_concat(a, p, x);
        lemma_covers_concat(pre, seq![r], x);
        assert(rs =~= pre + seq![r]);
        if he <= r.start || hs >= r.end {
            assert(covers(seq![r], x) ==> !(hs <= x < he) || !(r.start <= x < r.end));
        } else {
            let lo: Seq<Range> = if r.start < hs { seq![Range { start: r.start, end: hs as usize }] } else { Seq::empty() };
            let hi: Seq<Range> = if he < r.end { seq![Range { start: he as usize, end: r.end }] } else { Seq::empty() };
            lemma_covers_concat(lo, hi, x);
            if covers(lo, x) {
                assert(lo[0].start <= x < lo[0].end);
            }
            if covers(hi, x) {
                assert(hi[0].start <= x < hi[0].end);
            }
            if covers(seq![r], x) && !(hs <= x < he) {
                if x < hs {
                    assert(lo[0].start <= x < lo[0].end);
                } else {
                    assert(hi[0].start <= x < hi[0].end);
                }
            }
        }
        if covers(seq![r], x) {
            assert(seq![r][0].start <= x < seq![r][0].end);
        }
    }
}

proof fn lemma_covers_concat(a: Seq<Range>, b: Seq<Range>, x: int)
    ensures
        covers(a + b, x) <==> (covers(a, x) || covers(b, x)),
{
    if covers(a + b, x) {
        let i = choose|i: int| 0 <= i < (a + b).len() && (#[trigger] (a + b)[i]).start <= x < (a + b)[i].end;
        if i < a.len() {
            assert(a[i] == (a + b)[i]);
        } else {
            assert(b[i - a.len()] == (a + b)[i]);
        }
    }
    if covers(a, x) {
        let i = choose|i: int| 0 <= i < a.len() && (#[trigger] a[i]).start <= x < a[i].end;
        assert((a + b)[i] == a[i]);
    }
    if covers(b, x) {
        let i = choose|i: int| 0 <= i < b.len() && (#[trigger] b[i]).start <= x < b[i].end;
        assert((a + b)[a.len() + i] == b[i]);
    }
}

/// After a successful `subtract`, an address is usable exactly when it was
/// usable before and lies outside the hole.
pub proof fn law_subtract_removes_hole(before: Seq<Range>, hs: int, he: int, x: int)
    requires
        subtract_spec(before, hs, he) is Ok,
    ensures
        covers(subtract_spec(before, hs, he)->Ok_0, x) <==> (covers(before, x) && !(hs <= x < he)),
{
    if hs < he {
        lemma_subtract_covers(before, hs, he, x);
    }
}

/// The kernel image as [start, end), its end rounded up to a whole page.
pub fn kernel_image_range(start: usize, end_addr: usize) -> (r: (usize, usize))
    requires
        end_addr + PAGE_SIZE - 1 <= usize::MAX,
    ensures
        r.0 == start,
        r.1 % PAGE_SIZE == 0,
        end_addr <= r.1 < end_addr + PAGE_SIZE,
{
    let rem = end_addr % PAGE_SIZE;
    let end = if rem == 0 { end_addr } else { end_addr + (PAGE_SIZE - rem) };
    (start, end)
}


// ---------------------------------------------------------------- the frame bitmap

/// Bit `k` of word `w` is set.
pub open spec fn bit_set(w: u64, k: int) -> bool {
    (w >> (k as u64)) & 1 == 1
}

/// Frame `f` is marked used: bit `f % 64` of word `f / 64`.
pub open spec fn frame_used(words: Seq<u64>, f: int) -> bool {
    bit_set(words[f / 64], f % 64)
}

/// The lowest frame of the whole bitmap that is marked free.
pub open spec fn first_free(words: Seq<u64>) -> Option<int> {
    first_index(words.len() * 64 as int, |f: int| !frame_used(words, f))
}

/// One bit per 4 KiB frame. Bit `frame % 64` of `words[frame / 64]`.
pub struct Bitmap {
    pub base: usize,
    pub words: Vec<u64>,
    pub frames: usize,
}

/// The first frame that lies wholly at or above `start`.
pub open spec fn range_first(base: int, start: int) -> int {
    let d = if start > base { start - base } else { 0 };
    (d + PAGE_SIZE - 1) / PAGE_SIZE as int
}

/// One past the last frame that lies wholly below `end`, capped at `frames`.
pub open spec fn range_last(base: int, end: int, frames: int) -> int {
    let d = if end > base { end - base } else { 0 };
    if d / PAGE_SIZE as int > frames { frames } else { d / PAGE_SIZE as int }
}

/// Start address of frame `f`.
pub open spec fn frame_addr(base: int, f: int) -> int {
    base + f * PAGE_SIZE
}

impl Bitmap {
    /// The tracked frames fit the words, start on a page boundary and have
    /// addresses that fit in a `usize`.
    pub open spec fn wf(&self) -> bool {
        &&& self.frames <= self.words@.len() * 64
        &&& self.words@.len() * 64 <= usize::MAX
        &&& self.base % PAGE_SIZE == 0
        &&& self.base + self.frames * PAGE_SIZE <= usize::MAX
    }

    /// The word and the bit mask of a frame.
    pub fn locate(frame: usize) -> (r: (usize, u64))
        ensures
            r.0 == frame / 64,
            r.1 == 1u64 << ((frame % 64) as u64),
    {
        (frame / 64, 1u64 << ((frame % 64) as u64))
    }

    /// Sets or clears every frame fully inside physical range
    /// [start, end). Frames outside the tracked span are ignored.
    pub fn set_range(&mut self, start: usize, end: usize, used: bool)
        requires
            old(self).wf(),
        ensures
            final(self).wf(),
            final(self).base == old(self).base,
            final(self).frames == old(self).frames,
            final(self).words@.len() == old(self).words@.len(),
            forall|f: int| 0 <= f < old(self).words@.len() * 64 ==> #[trigger] frame_used(final(self).words@, f) == if range_first(
                old(self).base as int, start as int) <= f < range_last(old(self).base as int, end as int, old(self).frames as int) {
                used
            } else {
                frame_used(old(self).words@, f)
            },
    {
        let d = if start > self.base { start - self.base } else { 0 };
        let first = d / PAGE_SIZE + if d % PAGE_SIZE == 0 { 0 } else { 1 };
        let e = if end > self.base { end - self.base } else { 0 };
        let last = if e / PAGE_SIZE > self.frames { self.frames } else { e / PAGE_SIZE };
        proof {
            assert(first == range_first(self.base as int, start as int));
        }
        let ghost old_words = self.words@;
        let mut frame = first;
        while frame < last
            invariant
                self.wf(),
                self.base == old(self).base,
                self.frames == old(self).frames,
                self.words@.len() == old_words.len(),
                old_words == old(self).words@,
                last <= self.frames,
                first <= frame,
                forall|f: int| 0 <= f < old_words.len() * 64 ==> #[trigger] frame_used(self.words@, f) == if first <= f < frame && f < last {
                    used
                } else {
                    frame_used(old_words, f)
                },
            decreases last - frame,
        {
            let (word, mask) = Self::locate(frame);
            let ghost before = self.words@;
            let k = (frame % 64) as u64;
            if used {
                let w = self.words[word] | mask;
                self.words.set(word, w);
            } else {
                let w = self.words[word] & !mask;
                self.words.set(word, w);
            }
            proof {
                assert forall|f: int| 0 <= f < old_words.len() * 64 implies #[trigger] frame_used(self.words@, f) == if first <= f < frame + 1 && f < last {
                    used
                } else {
                    frame_used(old_words, f)
                } by {
                    vstd::arithmetic::div_mod::lemma_fundamental_div_mod(f, 64);
                    vstd::arithmetic::div_mod::lemma_fundamental_div_mod(frame as int, 64);
                    assert(0 <= f / 64 < old_words.len());
                    if f / 64 == word as int {
                        assert(self.words@[f / 64] == (if used { before[word as int] | mask } else { before[word as int] & !mask }));
                        lemma_bit_set(before[word as int], k, (f % 64) as u64);
                        lemma_bit_clear(before[word as int], k, (f % 64) as u64);
                        if f == frame {
                            assert(frame_used(self.words@, f) == used);
                            assert(first <= f < frame + 1 && f < last);
                        } else {
                            assert(f % 64 != frame % 64);
                            assert(frame_used(self.words@, f) == frame_used(before, f));
                        }
                    } else {
                        assert(self.words@[f / 64] == before[f / 64]);
                        assert(f != frame);
                        assert(frame_used(self.words@, f) == frame_used(before, f));
                    }
                }
            }
            frame = frame + 1;
        }
    }

    /// Physical address of the first free frame, or `None` when the
    /// tracked span is full. Marks the frame used on success.
    pub fn alloc_frame_and_return_addr(&mut self) -> (r: Option<usize>)
        requires
            old(self).wf(),
        ensures
            final(self).wf(),
            final(self).base == old(self).base,
            final(self).frames == old(self).frames,
            final(self).words@.len() == old(self).words@.len(),
            match first_free(old(self).words@) {
                Some(f) if f < old(self).frames => {
                    &&& r == Some(frame_addr(old(self).base as int, f) as usize)
                    &&& forall|g: int| 0 <= g < old(self).words@.len() * 64 ==> #[trigger] frame_used(final(self).words@, g)
                        == (g == f || frame_used(old(self).words@, g))
                },
                _ => r is None && final(self).words@ == old(self).words@,
            },
    {
        let ghost pred = |f: int| !frame_used(self.words@, f);
        let n = self.words.len();
        let mut w = 0usize;
        while w < n
            invariant
                n == self.words@.len(),
                n * 64 <= usize::MAX,
                w <= n,
                pred == (|f: int| !frame_used(self.words@, f)),
                forall|j: int| 0 <= j < w ==> self.words@[j] == 0xffff_ffff_ffff_ffffu64,
            ensures
                w <= n,
                forall|j: int| 0 <= j < w ==> self.words@[j] == 0xffff_ffff_ffff_ffffu64,
                w < n ==> self.words@[w as int] != 0xffff_ffff_ffff_ffffu64,
            decreases n - w,
        {
            if self.words[w] != 0xffff_ffff_ffff_ffffu64 {
                break;
            }
            w = w + 1;
        }
        if w == n {
            proof {
                assert forall|f: int| 0 <= f < n * 64 implies !#[trigger] pred(f) by {
                    lemma_all_ones((f % 64) as u64);
                }
                lemma_first_index_none(n * 64, pred);
            }
            return None;
        }
        let word = self.words[w];
        let bit_idx = word.trailing_ones() as usize;
        proof {
            vstd::std_specs::bits::axiom_u64_trailing_ones(word);
        }
        let frame = w * BITS_PER_WORD + bit_idx;
        proof {
            vstd::arithmetic::div_mod::lemma_fundamental_div_mod_converse(frame as int, 64, w as int, bit_idx as int);
            assert forall|f: int| 0 <= f < frame implies !#[trigger] pred(f) by {
                if f < w * 64 {
                    lemma_all_ones((f % 64) as u64);
                } else {
                    assert(f / 64 == w && f % 64 < bit_idx);
                    assert((word >> ((f % 64) as u64)) & 1u64 == 1u64);
                }
            }
            assert(pred(frame as int));
            lemma_first_index_is(n * 64, pred, frame as int);
        }
        if frame >= self.frames {
            return None;
        }
        let ghost before = self.words@;
        let k = bit_idx as u64;
        self.words.set(w, word | (1u64 << k));
        proof {
            assert forall|g: int| 0 <= g < n * 64 implies #[trigger] frame_used(self.words@, g)
                == (g == frame || frame_used(before, g)) by {
                if g / 64 == w as int {
                    lemma_bit_set(word, k, (g % 64) as u64);
                } else {
                    assert(self.words@[g / 64] == before[g / 64]);
                }
            }
        }
        Some(self.base + frame * PAGE_SIZE)
    }

    /// Marks the frame at `addr` free again. Fails unless `addr` is the
    /// page-aligned address of a tracked frame that is marked used.
    pub fn free_frame(&mut self, addr: usize) -> (r: Result<(), MMError>)
        requires
            old(self).wf(),
        ensures
            final(self).wf(),
            final(self).base == old(self).base,
            final(self).frames == old(self).frames,
            final(self).words@.len() == old(self).words@.len(),
            ({
                let f = (addr - old(self).base) / PAGE_SIZE as int;
                let ok = addr % PAGE_SIZE == 0 && addr >= old(self).base && f < old(self).frames
                    && frame_used(old(self).words@, f);
                &&& ok ==> r is Ok && forall|g: int| 0 <= g < old(self).words@.len() * 64 ==>
                    #[trigger] frame_used(final(self).words@, g) == (g != f && frame_used(old(self).words@, g))
                &&& !ok ==> r == Err::<(), MMError>(MMError::FreeFrameError) && final(self).words@ == old(self).words@
            }),
    {
        if addr % PAGE_SIZE != 0 || addr < self.base {
            return Err(MMError::FreeFrameError);
        }
        let frame = (addr - self.base) / PAGE_SIZE;
        if frame >= self.frames {
            return Err(MMError::FreeFrameError);
        }
        let (word_idx, bit_idx) = Self::locate(frame);
        proof {
            lemma_bit_test_word(self.words@[word_idx as int], (frame % 64) as u64);
        }
        if self.words[word_idx] & bit_idx == 0 {
            return Err(MMError::FreeFrameError);
        }
        proof {
            assert(addr - self.base == frame * PAGE_SIZE);
            assert(range_first(self.base as int, addr as int) == frame);
            assert(range_last(self.base as int, addr + PAGE_SIZE, self.frames as int) == frame + 1);
        }
        self.set_range(addr, addr + PAGE_SIZE, false);
        Ok(())
    }
}

proof fn lemma_bit_test_word(x: u64, j: u64)
    requires
        j < 64,
    ensures
        (x & (1u64 << j)) == 0 <==> !bit_set(x, j as int),
{
    crate::utils::lemma_bit_test(x, j);
}


// ---------------------------------------------------------------- start-up

/// The bytes of `device_type`.
pub open spec fn name_device_type() -> Seq<u8> {
    seq![100u8, 101u8, 118u8, 105u8, 99u8, 101u8, 95u8, 116u8, 121u8, 112u8, 101u8]
}

/// The bytes of `memory`.
pub open spec fn name_memory() -> Seq<u8> {
    seq![109u8, 101u8, 109u8, 111u8, 114u8, 121u8]
}

/// The first node whose `device_type` lists `memory`.
pub open spec fn memory_node(f: &Fdt) -> Option<int> {
    first_index(f.nodes@.len() as int, |j: int| prop_lists(f, j, name_device_type(), name_memory()))
}

/// The ranges of the memory node's `reg` entries from `idx` on, appended to
/// `acc`: entries of size 0 are skipped; an entry whose end overflows, or one
/// more range than the list holds, is refused.
pub open spec fn reg_ranges(f: &Fdt, node: int, idx: int, acc: Seq<Range>) -> Result<Seq<Range>, MMError>
    decreases f.blob@.len() - idx,
{
    if idx < 0 || idx >= f.blob@.len() {
        Ok(acc)
    } else {
        match resource_spec(f, node, idx) {
            None => Ok(acc),
            Some(r) => if r.base + r.size > u64::MAX {
                Err(MMError::InitError)
            } else if r.size == 0 {
                reg_ranges(f, node, idx + 1, acc)
            } else if acc.len() >= MAX_USABLE_RANGES {
                Err(MMError::InitError)
            } else {
                reg_ranges(f, node, idx + 1, acc.push(Range { start: r.base as usize, end: (r.base + r.size) as usize }))
            },
        }
    }
}

/// The ranges once every region of `regions` from `k` on is taken out.
pub open spec fn subtract_regions(rs: Seq<Range>, regions: Seq<Resource>, k: int) -> Result<Seq<Range>, MMError>
    decreases regions.len() - k,
{
    if k < 0 || k >= regions.len() {
        Ok(rs)
    } else {
        let g = regions[k];
        if g.base + g.size > u64::MAX {
            Err(MMError::InitError)
        } else {
            match subtract_spec(rs, g.base as usize as int, (g.base + g.size) as u64 as usize as int) {
                Err(e) => Err(e),
                Ok(r2) => subtract_regions(r2, regions, k + 1),
            }
        }
    }
}

/// The usable RAM: the memory node's ranges without the reserved regions,
/// the DTB and the kernel image (its end rounded up to a page).
pub open spec fn usable_ram(f: &Fdt, dtb_start: int, kernel_start: int, kernel_end: int) -> Result<Seq<Range>, MMError> {
    match memory_node(f) {
        None => Err(MMError::InitError),
        Some(node) => match reg_ranges(f, node, 0, Seq::empty()) {
            Err(e) => Err(e),
            Ok(rs) => if rs.len() == 0 {
                Err(MMError::InitError)
            } else {
                match subtract_regions(rs, f.reserved@, 0) {
                    Err(e) => Err(e),
                    Ok(r2) => if dtb_start + f.total_size > usize::MAX {
                        Err(MMError::InitError)
                    } else {
                        match subtract_spec(r2, dtb_start, dtb_start + f.total_size) {
                            Err(e) => Err(e),
                            Ok(r3) => if kernel_end + PAGE_SIZE - 1 > usize::MAX {
                                Err(MMError::InitError)
                            } else {
                                subtract_spec(r3, kernel_start, round_up_page(kernel_end))
                            },
                        }
                    },
                }
            },
        },
    }
}

/// `x` rounded up to a whole page.
pub open spec fn round_up_page(x: int) -> int {
    if x % PAGE_SIZE as int == 0 { x } else { x + (PAGE_SIZE - x % PAGE_SIZE as int) }
}

/// `x / d` rounded up.
pub open spec fn ceil_div(x: int, d: int) -> int {
    (x + d - 1) / d
}

/// The lowest start of the ranges (0 for none).
pub open spec fn min_start(rs: Seq<Range>) -> int
    decreases rs.len(),
{
    if rs.len() == 0 {
        0
    } else if rs.len() == 1 {
        rs[0].start as int
    } else {
        let m = min_start(rs.drop_last());
        if (rs.last().start as int) < m { rs.last().start as int } else { m }
    }
}

/// The highest end of the ranges (0 for none).
pub open spec fn max_end(rs: Seq<Range>) -> int
    decreases rs.len(),
{
    if rs.len() == 0 {
        0
    } else {
        let m = max_end(rs.drop_last());
        if (rs.last().end as int) > m { rs.last().end as int } else { m }
    }
}

/// The bitmap of `bytes` bytes fits in `r` from its first page boundary on.
pub open spec fn bitmap_fits(r: Range, bytes: int) -> bool {
    round_up_page(r.start as int) + bytes <= r.end
}

/// Where the allocator's pieces go, given the usable RAM.
pub struct Layout {
    pub usable: Seq<Range>,
    pub base: int,
    pub frames: int,
    pub words: int,
    pub bitmap_pa: int,
    pub bitmap_bytes: int,
}

/// The frames tracked run from the page holding the lowest usable address
/// to the page holding the highest; the bitmap (one bit per frame, whole
/// words, whole pages) goes to the first usable range it fits in, which
/// then stops being usable.
pub open spec fn layout_spec(rs: Seq<Range>) -> Result<Layout, MMError> {
    if rs.len() == 0 {
        Err(MMError::InitError)
    } else {
        let base = min_start(rs) / PAGE_SIZE as int * PAGE_SIZE as int;
        let me = max_end(rs);
        let frames = ceil_div(if me > base { me - base } else { 0 }, PAGE_SIZE as int);
        let words = ceil_div(frames, 64);
        let bytes = round_up_page(words * 8);
        if bytes > usize::MAX || base + frames * PAGE_SIZE > usize::MAX {
            Err(MMError::InitError)
        } else {
            match first_index(rs.len() as int, |i: int| bitmap_fits(rs[i], bytes)) {
                None => Err(MMError::InitError),
                Some(i) => {
                    let pa = round_up_page(rs[i].start as int);
                    match subtract_spec(rs, pa, pa + bytes) {
                        Err(e) => Err(e),
                        Ok(u) => Ok(Layout { usable: u, base, frames, words, bitmap_pa: pa, bitmap_bytes: bytes }),
                    }
                },
            }
        }
    }
}

/// What `init` sets up from the device tree and the DTB and kernel
/// placement.
pub open spec fn init_spec(f: &Fdt, dtb_start: int, kernel_start: int, kernel_end: int) -> Result<Layout, MMError> {
    match usable_ram(f, dtb_start, kernel_start, kernel_end) {
        Err(e) => Err(e),
        Ok(rs) => layout_spec(rs),
    }
}

/// Frame `f` lies wholly inside one of the ranges.
pub open spec fn frame_in_ranges(rs: Seq<Range>, base: int, frames: int, f: int) -> bool {
    exists|i: int| 0 <= i < rs.len() && range_first(base, (#[trigger] rs[i]).start as int) <= f
        < range_last(base, rs[i].end as int, frames)
}

/// The frame allocator: the usable ranges and the bitmap over them.
pub struct FrameAllocator {
    pub usable: UsableRanges,
    pub bitmap: Bitmap,
    pub bitmap_pa: usize,
}

impl FrameAllocator {
    pub open spec fn wf(&self) -> bool {
        &&& self.usable.wf()
        &&& self.bitmap.wf()
    }

    /// The bitmap marks free exactly the tracked frames that lie wholly in
    /// one of the usable ranges.
    pub open spec fn fresh(&self) -> bool {
        forall|f: int| 0 <= f < self.bitmap.words@.len() * 64 ==> #[trigger] frame_used(self.bitmap.words@, f)
            == !(f < self.bitmap.frames && frame_in_ranges(self.usable@, self.bitmap.base as int, self.bitmap.frames as int, f))
    }

    /// Physical RAM ranges that hold neither the DTB nor the kernel image.
    pub fn usable_ranges(&self) -> (r: &[Range])
        ensures
            r@ == self.usable@,
    {
        self.usable.get_ranges()
    }

    /// Takes the first free frame and returns its physical address. The
    /// allocator does not touch physical memory: clearing the frame to zero,
    /// which every user of a fresh frame relies on, is the caller's job (the
    /// page-table model does it with `PageTableMemory::zero_table`).
    pub fn alloc_frame(&mut self) -> (r: Result<usize, MMError>)
        requires
            old(self).wf(),
        ensures
            final(self).wf(),
            final(self).usable == old(self).usable,
            final(self).bitmap_pa == old(self).bitmap_pa,
            final(self).bitmap.base == old(self).bitmap.base,
            final(self).bitmap.frames == old(self).bitmap.frames,
            final(self).bitmap.words@.len() == old(self).bitmap.words@.len(),
            match first_free(old(self).bitmap.words@) {
                Some(f) if f < old(self).bitmap.frames => {
                    &&& r == Ok::<usize, MMError>(frame_addr(old(self).bitmap.base as int, f) as usize)
                    &&& forall|g: int| 0 <= g < old(self).bitmap.words@.len() * 64 ==> #[trigger] frame_used(final(self).bitmap.words@, g)
                        == (g == f || frame_used(old(self).bitmap.words@, g))
                },
                _ => r == Err::<usize, MMError>(MMError::AllocFrameError) && final(self).bitmap.words@ == old(self).bitmap.words@,
            },
    {
        match self.bitmap.alloc_frame_and_return_addr() {
            Some(pa) => Ok(pa),
            None => Err(MMError::AllocFrameError),
        }
    }

    /// Returns the frame at `addr` to the pool.
    pub fn free_frame(&mut self, addr: usize) -> (r: Result<(), MMError>)
        requires
            old(self).wf(),
        ensures
            final(self).wf(),
            final(self).usable == old(self).usable,
            final(self).bitmap_pa == old(self).bitmap_pa,
            final(self).bitmap.base == old(self).bitmap.base,
            final(self).bitmap.frames == old(self).bitmap.frames,
            final(self).bitmap.words@.len() == old(self).bitmap.words@.len(),
            ({
                let b = old(self).bitmap;
                let f = (addr - b.base) / PAGE_SIZE as int;
                let ok = addr % PAGE_SIZE == 0 && addr >= b.base && f < b.frames && frame_used(b.words@, f);
                &&& ok ==> r is Ok && forall|g: int| 0 <= g < b.words@.len() * 64 ==>
                    #[trigger] frame_used(final(self).bitmap.words@, g) == (g != f && frame_used(b.words@, g))
                &&& !ok ==> r == Err::<(), MMError>(MMError::FreeFrameError) && final(self).bitmap.words@ == b.words@
            }),
    {
        self.bitmap.free_frame(addr)
    }
}

/// Freeing the frame that an allocation just returned gives back the
/// bitmap as it was before the allocation.
pub proof fn law_alloc_then_free_restores(before: Seq<u64>, after: Seq<u64>, base: int, frames: int)
    requires
        first_free(before) matches Some(f) && f < frames,
        forall|g: int| 0 <= g < before.len() * 64 ==> #[trigger] frame_used(after, g)
            == (g == first_free(before)->Some_0 || frame_used(before, g)),
    ensures
        ({
            let f = first_free(before)->Some_0;
            &&& frame_used(after, f)
            &&& (frame_addr(base, f) - base) / PAGE_SIZE as int == f
            &&& forall|g: int| 0 <= g < before.len() * 64 ==> (g != f && #[trigger] frame_used(after, g))
                == frame_used(before, g)
        }),
{
    let f = first_free(before)->Some_0;
    let pred = |h: int| !frame_used(before, h);
    let n = before.len() * 64 as int;
    let c = choose|j: int| is_first(n, pred, j);
    assert(is_first(n, pred, c));
    assert(pred(f));
    vstd::arithmetic::div_mod::lemma_fundamental_div_mod_converse(f * PAGE_SIZE as int, PAGE_SIZE as int, f, 0);
}

/// A frame that an allocation returned is marked used, so the next
/// allocation returns another one.
pub proof fn law_alloc_never_repeats(before: Seq<u64>, after: Seq<u64>)
    requires
        first_free(before) is Some,
        after.len() == before.len(),
        forall|g: int| 0 <= g < before.len() * 64 ==> #[trigger] frame_used(after, g)
            == (g == first_free(before)->Some_0 || frame_used(before, g)),
    ensures
        first_free(after) != first_free(before),
{
    let f = first_free(before)->Some_0;
    let pred = |h: int| !frame_used(before, h);
    let n = before.len() * 64 as int;
    let c = choose|j: int| is_first(n, pred, j);
    assert(is_first(n, pred, c));
    assert(frame_used(after, f));
    let pred2 = |h: int| !frame_used(after, h);
    if exists|j: int| is_first(n, pred2, j) {
        let c2 = choose|j: int| is_first(n, pred2, j);
        assert(is_first(n, pred2, c2));
        assert(pred2(c2));
    }
}


/// `x / d` rounded up.
fn div_ceil(x: usize, d: usize) -> (r: usize)
    requires
        d > 0,
    ensures
        r == ceil_div(x as int, d as int),
        r * d >= x,
        r * d < x + d,
{
    let q = x / d;
    let rem = x % d;
    proof {
        vstd::arithmetic::div_mod::lemma_fundamental_div_mod(x as int, d as int);
        assert(rem != 0 ==> q < x) by (nonlinear_arith)
            requires
                x == d * q + rem,
                d > 0,
                0 <= rem < d,
                rem != 0 ==> d >= 2,
        ;
    }
    let r = if rem == 0 { q } else { q + 1 };
    proof {
        assert(x + d - 1 == r * d + (if rem == 0 { d - 1 } else { rem - 1 })) by (nonlinear_arith)
            requires
                x == d * q + rem,
                r == (if rem == 0 { q as int } else { q + 1 }),
        ;
        vstd::arithmetic::div_mod::lemma_fundamental_div_mod_converse(x + d - 1, d as int, r as int,
            if rem == 0 { d - 1 } else { rem - 1 });
        assert(r * d >= x && r * d < x + d) by (nonlinear_arith)
            requires
                x == d * q + rem,
                r == (if rem == 0 { q as int } else { q + 1 }),
                0 <= rem < d,
        ;
    }
    r
}

/// The ranges of the memory node's `reg` entries.
fn memory_ranges(fdt: &Fdt, node: usize) -> (r: Result<UsableRanges, MMError>)
    requires
        fdt.wf(),
    ensures
        match r {
            Ok(u) => u.wf() && reg_ranges(fdt, node as int, 0, Seq::empty()) == Ok::<Seq<Range>, MMError>(u@),
            Err(e) => e == MMError::InitError && reg_ranges(fdt, node as int, 0, Seq::empty()) is Err,
        },
{
    let mut usable = UsableRanges::new();
    let mut resource_idx = 0usize;
    proof {
        assert(fdt.blob@.len() == fdt.blob.len());
    }
    loop
        invariant
            fdt.wf(),
            usable.wf(),
            resource_idx <= fdt.blob@.len(),
            fdt.blob@.len() <= usize::MAX,
            reg_ranges(fdt, node as int, 0, Seq::empty()) == reg_ranges(fdt, node as int, resource_idx as int, usable@),
        decreases fdt.blob@.len() - resource_idx,
    {
        let r = match get_resource(fdt, node, resource_idx) {
            None => {
                return Ok(usable);
            },
            Some(r) => r,
        };
        proof {
            lemma_resource_idx_bound(fdt, node as int, resource_idx as int);
        }
        let end = match r.base.checked_add(r.size) {
            Some(e) => e,
            None => { return Err(MMError::InitError); },
        };
        if r.size != 0 {
            if usable.push(Range { start: r.base as usize, end: end as usize }).is_err() {
                return Err(MMError::InitError);
            }
        }
        resource_idx = resource_idx + 1;
    }
}

/// Takes every reserved region of the tree out of the ranges.
fn subtract_reserved(fdt: &Fdt, usable: &mut UsableRanges) -> (r: Result<(), MMError>)
    requires
        old(usable).wf(),
    ensures
        final(usable).wf(),
        match r {
            Ok(()) => subtract_regions(old(usable)@, fdt.reserved@, 0) == Ok::<Seq<Range>, MMError>(final(usable)@),
            Err(e) => e == MMError::InitError && subtract_regions(old(usable)@, fdt.reserved@, 0) is Err,
        },
{
    let regions = get_reserved(fdt);
    let mut k = 0usize;
    while k < regions.len()
        invariant
            usable.wf(),
            regions@ == fdt.reserved@,
            k <= regions@.len(),
            subtract_regions(old(usable)@, fdt.reserved@, 0) == subtract_regions(usable@, fdt.reserved@, k as int),
        decreases regions@.len() - k,
    {
        let region = regions[k];
        let end = match region.base.checked_add(region.size) {
            Some(e) => e,
            None => { return Err(MMError::InitError); },
        };
        if usable.subtract(region.base as usize, end as usize).is_err() {
            return Err(MMError::InitError);
        }
        k = k + 1;
    }
    Ok(())
}

/// The lowest start of a non-empty list of ranges.
fn lowest_start(rs: &[Range]) -> (m: usize)
    requires
        rs@.len() > 0,
    ensures
        m == min_start(rs@),
{
    let mut m = rs[0].start;
    let mut i = 1usize;
    proof {
        assert(rs@.subrange(0, 1).len() == 1);
    }
    while i < rs.len()
        invariant
            1 <= i <= rs@.len(),
            m == min_start(rs@.subrange(0, i as int)),
        decreases rs@.len() - i,
    {
        proof {
            assert(rs@.subrange(0, i + 1).drop_last() =~= rs@.subrange(0, i as int));
        }
        if rs[i].start < m {
            m = rs[i].start;
        }
        i = i + 1;
    }
    proof {
        assert(rs@.subrange(0, i as int) =~= rs@);
    }
    m
}

/// The highest end of a list of ranges.
fn highest_end(rs: &[Range]) -> (m: usize)
    ensures
        m == max_end(rs@),
{
    let mut m = 0usize;
    let mut i = 0usize;
    while i < rs.len()
        invariant
            i <= rs@.len(),
            m == max_end(rs@.subrange(0, i as int)),
        decreases rs@.len() - i,
    {
        proof {
            assert(rs@.subrange(0, i + 1).drop_last() =~= rs@.subrange(0, i as int));
        }
        if rs[i].end > m {
            m = rs[i].end;
        }
        i = i + 1;
    }
    proof {
        assert(rs@.subrange(0, i as int) =~= rs@);
    }
    m
}

/// `x` rounded up to a whole page, when that fits in a `usize`.
fn checked_round_up_page(x: usize) -> (r: Option<usize>)
    ensures
        round_up_page(x as int) <= usize::MAX ==> r == Some(round_up_page(x as int) as usize),
        round_up_page(x as int) > usize::MAX ==> r is None,
{
    let rem = x % PAGE_SIZE;
    if rem == 0 {
        Some(x)
    } else {
        x.checked_add(PAGE_SIZE - rem)
    }
}

/// The start of the first range that holds `bytes` bytes from a page
/// boundary on.
fn find_bitmap_place(rs: &[Range], bytes: usize) -> (r: Option<usize>)
    ensures
        match first_index(rs@.len() as int, |i: int| bitmap_fits(rs@[i], bytes as int)) {
            Some(i) => r == Some(round_up_page(rs@[i].start as int) as usize),
            None => r is None,
        },
{
    let ghost pred = |i: int| bitmap_fits(rs@[i], bytes as int);
    let mut i = 0usize;
    while i < rs.len()
        invariant
            i <= rs@.len(),
            pred == (|i: int| bitmap_fits(rs@[i], bytes as int)),
            forall|k: int| 0 <= k < i ==> !#[trigger] pred(k),
        decreases rs@.len() - i,
    {
        let r = rs[i];
        if let Some(pa) = checked_round_up_page(r.start) {
            if let Some(e) = pa.checked_add(bytes) {
                if e <= r.end {
                    proof {
                        lemma_first_index_is(rs@.len() as int, pred, i as int);
                    }
                    return Some(pa);
                }
            }
        }
        i = i + 1;
    }
    proof {
        lemma_first_index_none(rs@.len() as int, pred);
    }
    None
}

/// A vector of `n` all-ones words: every frame marked used.
fn all_used(n: usize) -> (v: Vec<u64>)
    ensures
        v@.len() == n,
        forall|i: int| 0 <= i < n ==> v@[i] == 0xffff_ffff_ffff_ffffu64,
{
    let mut v: Vec<u64> = Vec::new();
    while v.len() < n
        invariant
            v@.len() <= n,
            forall|i: int| 0 <= i < v@.len() ==> v@[i] == 0xffff_ffff_ffff_ffffu64,
        decreases n - v.len(),
    {
        v.push(0xffff_ffff_ffff_ffffu64);
    }
    v
}

/// Sets up the frame allocator from the device tree: the RAM of the first
/// `memory` node, less the reserved regions, the DTB at `dtb_start` and the
/// kernel image [`kernel_start`, `kernel_end`), less the bitmap itself,
/// which takes the first usable range it fits in. Every frame wholly inside
/// a usable range starts free.
#[verifier::rlimit(80)]
pub fn init(fdt: &Fdt, dtb_start: usize, kernel_start: usize, kernel_end: usize) -> (r: Result<FrameAllocator, MMError>)
    requires
        fdt.wf(),
    ensures
        r is Ok <==> init_spec(fdt, dtb_start as int, kernel_start as int, kernel_end as int) is Ok,
        r is Err ==> r == Err::<FrameAllocator, MMError>(MMError::InitError),
        r matches Ok(a) ==> {
            let l = init_spec(fdt, dtb_start as int, kernel_start as int, kernel_end as int)->Ok_0;
            &&& a.wf()
            &&& a.fresh()
            &&& a.usable@ == l.usable
            &&& a.bitmap.base == l.base
            &&& a.bitmap.frames == l.frames
            &&& a.bitmap.words@.len() == l.words
            &&& a.bitmap_pa == l.bitmap_pa
        },
{
    let device_type: [u8; 11] = [100, 101, 118, 105, 99, 101, 95, 116, 121, 112, 101];
    let memory: [u8; 6] = [109, 101, 109, 111, 114, 121];
    let node_id = match get_node_idx_by_prop_name_and_val(fdt, &device_type, &memory) {
        Some(n) => n,
        None => { return Err(MMError::InitError); },
    };
    proof {
        assert(device_type@ == name_device_type());
        assert(memory@ == name_memory());
    }

    let mut usable = memory_ranges(fdt, node_id)?;
    if usable.ranges.len() == 0 {
        return Err(MMError::InitError);
    }

    subtract_reserved(fdt, &mut usable)?;

    let dtb_end = match dtb_start.checked_add(fdt_total_size(fdt) as usize) {
        Some(e) => e,
        None => { return Err(MMError::InitError); },
    };
    usable.subtract(dtb_start, dtb_end)?;

    if kernel_end > usize::MAX - (PAGE_SIZE - 1) {
        return Err(MMError::InitError);
    }
    let (kernel_start, kernel_end) = kernel_image_range(kernel_start, kernel_end);
    usable.subtract(kernel_start, kernel_end)?;

    let ghost rs = usable@;
    let ranges = usable.get_ranges();
    if ranges.len() == 0 {
        return Err(MMError::InitError);
    }
    let min_start = lowest_start(ranges);
    let base = min_start / PAGE_SIZE * PAGE_SIZE;
    let max_end = highest_end(ranges);
    let num_frames = div_ceil(max_end.saturating_sub(base), PAGE_SIZE);
    let bitmap_words = div_ceil(num_frames, BITS_PER_WORD);
    let bitmap_bytes = match bitmap_words.checked_mul(8) {
        Some(b) => match checked_round_up_page(b) {
            Some(b) => b,
            None => { return Err(MMError::InitError); },
        },
        None => {
            proof {
                assert(round_up_page(bitmap_words * 8) >= bitmap_words * 8);
            }
            return Err(MMError::InitError);
        },
    };
    let span = match num_frames.checked_mul(PAGE_SIZE) {
        Some(s) => s,
        None => { return Err(MMError::InitError); },
    };
    if base.checked_add(span).is_none() {
        return Err(MMError::InitError);
    }
    let bitmap_pa = match find_bitmap_place(ranges, bitmap_bytes) {
        Some(pa) => pa,
        None => { return Err(MMError::InitError); },
    };
    proof {
        let i = first_index(rs.len() as int, |i: int| bitmap_fits(rs[i], bitmap_bytes as int))->Some_0;
        let pred = |i: int| bitmap_fits(rs[i], bitmap_bytes as int);
        let c = choose|j: int| is_first(rs.len() as int, pred, j);
        assert(is_first(rs.len() as int, pred, c));
        assert(pred(c));
    }
    usable.subtract(bitmap_pa, bitmap_pa + bitmap_bytes)?;

    proof {
        assert(num_frames <= bitmap_words * 64);
        assert(bitmap_words * 64 <= usize::MAX) by (nonlinear_arith)
            requires
                bitmap_words * 64 < num_frames + 64,
                num_frames * 4096 <= usize::MAX,
                usize::MAX >= 0xffff_ffff,
        ;
    }
    let mut bitmap = Bitmap { base, words: all_used(bitmap_words), frames: num_frames };
    let ghost full = bitmap.words@;
    proof {
        assert forall|f: int| 0 <= f < full.len() * 64 implies #[trigger] frame_used(full, f) by {
            lemma_all_ones((f % 64) as u64);
        }
    }
    let ranges = usable.get_ranges();
    let mut k = 0usize;
    while k < ranges.len()
        invariant
            bitmap.wf(),
            bitmap.base == base,
            bitmap.frames == num_frames,
            bitmap.words@.len() == bitmap_words,
            forall|f: int| 0 <= f < bitmap_words * 64 ==> #[trigger] frame_used(bitmap.words@, f)
                == !(exists|i: int| 0 <= i < k && range_first(base as int, (#[trigger] ranges@[i]).start as int) <= f
                    < range_last(base as int, ranges@[i].end as int, num_frames as int)),
            k <= ranges@.len(),
        decreases ranges@.len() - k,
    {
        let r = ranges[k];
        let ghost before = bitmap.words@;
        bitmap.set_range(r.start, r.end, false);
        proof {
            assert forall|f: int| 0 <= f < bitmap_words * 64 implies #[trigger] frame_used(bitmap.words@, f)
                == !(exists|i: int| 0 <= i < k + 1 && range_first(base as int, (#[trigger] ranges@[i]).start as int) <= f
                    < range_last(base as int, ranges@[i].end as int, num_frames as int)) by {
                if range_first(base as int, r.start as int) <= f < range_last(base as int, r.end as int, num_frames as int) {
                    assert(ranges@[k as int] == r);
                }
            }
        }
        k = k + 1;
    }
    let a = FrameAllocator { usable, bitmap, bitmap_pa };
    proof {
        assert forall|f: int| 0 <= f < a.bitmap.words@.len() * 64 implies #[trigger] frame_used(a.bitmap.words@, f)
            == !(f < a.bitmap.frames && frame_in_ranges(a.usable@, a.bitmap.base as int, a.bitmap.frames as int, f)) by {
            if frame_in_ranges(a.usable@, base as int, num_frames as int, f) {
                let i = choose|i: int| 0 <= i < a.usable@.len() && range_first(base as int, (#[trigger] a.usable@[i]).start as int) <= f
                    < range_last(base as int, a.usable@[i].end as int, num_frames as int);
                assert(ranges@[i] == a.usable@[i]);
            }
            if exists|i: int| 0 <= i < k && range_first(base as int, (#[trigger] ranges@[i]).start as int) <= f
                    < range_last(base as int, ranges@[i].end as int, num_frames as int) {
                let i = choose|i: int| 0 <= i < k && range_first(base as int, (#[trigger] ranges@[i]).start as int) <= f
                    < range_last(base as int, ranges@[i].end as int, num_frames as int);
                assert(a.usable@[i] == ranges@[i]);
            }
        }
    }
    Ok(a)
}


/// The hole that taking out reserved region `g` makes, as machine addresses.
pub open spec fn reserved_hole_start(g: Resource) -> int {
    g.base as usize as int
}

pub open spec fn reserved_hole_end(g: Resource) -> int {
    (g.base + g.size) as u64 as usize as int
}

/// Address `x` lies in one of the reserved regions from `k` on.
pub open spec fn in_reserved_from(regions: Seq<Resource>, k: int, x: int) -> bool {
    exists|j: int| k <= j < regions.len() && reserved_hole_start(#[trigger] regions[j]) <= x < reserved_hole_end(regions[j])
}

proof fn lemma_subtract_regions_covers(rs: Seq<Range>, regions: Seq<Resource>, k: int, x: int)
    requires
        0 <= k,
        subtract_regions(rs, regions, k) is Ok,
    ensures
        covers(subtract_regions(rs, regions, k)->Ok_0, x) <==> (covers(rs, x) && !in_reserved_from(regions, k, x)),
    decreases regions.len() - k,
{
    if k < regions.len() {
        let g = regions[k];
        let r2 = subtract_spec(rs, reserved_hole_start(g), reserved_hole_end(g))->Ok_0;
        law_subtract_removes_hole(rs, reserved_hole_start(g), reserved_hole_end(g), x);
        lemma_subtract_regions_covers(r2, regions, k + 1, x);
        if in_reserved_from(regions, k, x) && !(reserved_hole_start(g) <= x < reserved_hole_end(g)) {
            let j = choose|j: int| k <= j < regions.len() && reserved_hole_start(#[trigger] regions[j]) <= x < reserved_hole_end(regions[j]);
            assert(j != k);
        }
        if in_reserved_from(regions, k + 1, x) {
            let j = choose|j: int| k + 1 <= j < regions.len() && reserved_hole_start(#[trigger] regions[j]) <= x < reserved_hole_end(regions[j]);
            assert(k <= j);
        }
    }
}

/// After start-up, an address is usable exactly when it lies in the RAM
/// that the memory node lists and in none of the holes: the reserved
/// regions, the DTB, the kernel image (to its last page's end) and the
/// bitmap's own pages.
pub proof fn law_init_usable_is_ram_without_holes(f: &Fdt, dtb_start: int, kernel_start: int, kernel_end: int, x: int)
    requires
        init_spec(f, dtb_start, kernel_start, kernel_end) is Ok,
    ensures
        ({
            let l = init_spec(f, dtb_start, kernel_start, kernel_end)->Ok_0;
            let ram = reg_ranges(f, memory_node(f)->Some_0, 0, Seq::empty())->Ok_0;
            covers(l.usable, x) <==> {
                &&& covers(ram, x)
                &&& !in_reserved_from(f.reserved@, 0, x)
                &&& !(dtb_start <= x < dtb_start + f.total_size)
                &&& !(kernel_start <= x < round_up_page(kernel_end))
                &&& !(l.bitmap_pa <= x < l.bitmap_pa + l.bitmap_bytes)
            }
        }),
{
    let node = memory_node(f)->Some_0;
    let rs = reg_ranges(f, node, 0, Seq::empty())->Ok_0;
    let r2 = subtract_regions(rs, f.reserved@, 0)->Ok_0;
    let r3 = subtract_spec(r2, dtb_start, dtb_start + f.total_size)->Ok_0;
    let r4 = subtract_spec(r3, kernel_start, round_up_page(kernel_end))->Ok_0;
    let l = layout_spec(r4)->Ok_0;
    lemma_subtract_regions_covers(rs, f.reserved@, 0, x);
    law_subtract_removes_hole(r2, dtb_start, dtb_start + f.total_size, x);
    law_subtract_removes_hole(r3, kernel_start, round_up_page(kernel_end), x);
    law_subtract_removes_hole(r4, l.bitmap_pa, l.bitmap_pa + l.bitmap_bytes, x);
}

/// On a freshly set-up allocator, the frame that the next allocation hands
/// out lies wholly inside one of the usable ranges.
pub proof fn law_fresh_allocation_is_usable(a: &FrameAllocator)
    requires
        a.wf(),
        a.fresh(),
        first_free(a.bitmap.words@) matches Some(f) && f < a.bitmap.frames,
    ensures
        frame_in_ranges(a.usable@, a.bitmap.base as int, a.bitmap.frames as int, first_free(a.bitmap.words@)->Some_0),
{
    let w = a.bitmap.words@;
    let pred = |h: int| !frame_used(w, h);
    let n = w.len() * 64 as int;
    let c = choose|j: int| is_first(n, pred, j);
    assert(is_first(n, pred, c));
    assert(!frame_used(w, c));
}

/// A `reg` entry of node `i` that exists implies every entry before it
/// exists: entries are consecutive chunks of the value.
proof fn lemma_resource_prefix(f: &Fdt, i: int, j: int, k: int)
    requires
        0 <= j <= k,
        resource_spec(f, i, k) is Some,
    ensures
        resource_spec(f, i, j) is Some,
{
    let v = prop_value_by_name(f, i, name_reg())->Some_0;
    let ac = parent_prop_value(f, i, name_address_cells(), 2) as int;
    let sc = parent_prop_value(f, i, name_size_cells(), 1) as int;
    let w = (ac + sc) * 4;
    assert(j * w + w <= k * w + w && 0 <= j * w) by (nonlinear_arith)
        requires 0 <= j <= k, w >= 0;
}

/// The ranges gathered from entry `idx` on extend `acc`, and take in every
/// address of every entry from `idx` on that has a size.
proof fn lemma_reg_ranges_cover(f: &Fdt, node: int, idx: int, acc: Seq<Range>, k: int, x: int)
    requires
        f.wf(),
        0 <= idx,
        reg_ranges(f, node, idx, acc) is Ok,
    ensures
        covers(acc, x) ==> covers(reg_ranges(f, node, idx, acc)->Ok_0, x),
        idx <= k ==> ((resource_spec(f, node, k) matches Some(r) && r.size != 0
            && r.base + r.size <= usize::MAX && r.base <= x < r.base + r.size)
            ==> covers(reg_ranges(f, node, idx, acc)->Ok_0, x)),
    decreases f.blob@.len() - idx,
{
    if resource_spec(f, node, k) is Some && idx <= k {
        lemma_resource_idx_bound(f, node, k);
        lemma_resource_prefix(f, node, idx, k);
    }
    if idx < f.blob@.len() {
        match resource_spec(f, node, idx) {
            None => {},
            Some(r0) => {
                if r0.size == 0 {
                    lemma_reg_ranges_cover(f, node, idx + 1, acc, k, x);
                } else {
                    let rg = Range { start: r0.base as usize, end: (r0.base + r0.size) as usize };
                    let acc2 = acc.push(rg);
                    lemma_reg_ranges_cover(f, node, idx + 1, acc2, k, x);
                    if covers(acc, x) {
                        let j = choose|j: int| 0 <= j < acc.len() && (#[trigger] acc[j]).start <= x < acc[j].end;
                        assert(acc2[j] == acc[j]);
                    }
                    if k == idx && r0.base + r0.size <= usize::MAX && r0.base <= x < r0.base + r0.size {
                        assert(acc2[acc.len() as int] == rg);
                    }
                }
            },
        }
    }
}

/// Every address of every `reg` entry of the memory node that has a size
/// (and lies in the address space) is RAM to the allocator.
pub proof fn law_ram_covers_every_reg_entry(f: &Fdt, k: int, x: int)
    requires
        f.wf(),
        memory_node(f) is Some,
        reg_ranges(f, memory_node(f)->Some_0, 0, Seq::empty()) is Ok,
        0 <= k,
        resource_spec(f, memory_node(f)->Some_0, k) matches Some(r) && r.size != 0
            && r.base + r.size <= usize::MAX && r.base <= x < r.base + r.size,
    ensures
        covers(reg_ranges(f, memory_node(f)->Some_0, 0, Seq::empty())->Ok_0, x),
{
    lemma_reg_ranges_cover(f, memory_node(f)->Some_0, 0, Seq::empty(), k, x);
}

proof fn lemma_min_start_le(rs: Seq<Range>, i: int)
    requires
        0 <= i < rs.len(),
    ensures
        min_start(rs) <= rs[i].start,
    decreases rs.len(),
{
    if rs.len() > 1 && i < rs.len() - 1 {
        lemma_min_start_le(rs.drop_last(), i);
    }
}

proof fn lemma_max_end_ge(rs: Seq<Range>, i: int)
    requires
        0 <= i < rs.len(),
    ensures
        rs[i].end <= max_end(rs),
    decreases rs.len(),
{
    if i < rs.len() - 1 {
        lemma_max_end_ge(rs.drop_last(), i);
    }
}

/// After start-up the bitmap's pages hold all its words (one bit for each
/// tracked frame, eight bytes a word) and no usable address lies in them;
/// and every usable address lies in a tracked frame.
pub proof fn law_init_bitmap_and_frames(f: &Fdt, dtb_start: int, kernel_start: int, kernel_end: int, x: int)
    requires
        init_spec(f, dtb_start, kernel_start, kernel_end) is Ok,
    ensures
        ({
            let l = init_spec(f, dtb_start, kernel_start, kernel_end)->Ok_0;
            &&& l.words * 64 >= l.frames
            &&& l.bitmap_bytes >= 8 * l.words
            &&& l.bitmap_pa % PAGE_SIZE as int == 0
            &&& l.base % PAGE_SIZE as int == 0
            &&& covers(l.usable, x) ==> !(l.bitmap_pa <= x < l.bitmap_pa + 8 * l.words)
            &&& covers(l.usable, x) ==> l.base <= x < l.base + l.frames * PAGE_SIZE
        }),
{
    let rs = usable_ram(f, dtb_start, kernel_start, kernel_end)->Ok_0;
    let l = layout_spec(rs)->Ok_0;
    let base = l.base;
    let me = max_end(rs);
    let span = if me > base { me - base } else { 0 };
    vstd::arithmetic::div_mod::lemma_fundamental_div_mod(span + PAGE_SIZE - 1, PAGE_SIZE as int);
    vstd::arithmetic::div_mod::lemma_fundamental_div_mod(l.frames + 63, 64);
    vstd::arithmetic::div_mod::lemma_fundamental_div_mod(min_start(rs), PAGE_SIZE as int);
    vstd::arithmetic::div_mod::lemma_mod_multiples_vanish(min_start(rs) / PAGE_SIZE as int, 0, PAGE_SIZE as int);
    assert(base == (min_start(rs) / 4096) * 4096);
    assert(base % 4096 == 0) by {
        vstd::arithmetic::div_mod::lemma_mod_multiples_basic(min_start(rs) / 4096, 4096);
    }
    assert(l.bitmap_pa % 4096 == 0) by {
        let st = rs[choose|i: int| #![auto] 0 <= i < rs.len() && bitmap_fits(rs[i], l.bitmap_bytes)].start as int;
        vstd::arithmetic::div_mod::lemma_mod_add_multiples_vanish(st, 4096);
    }
    law_subtract_removes_hole(rs, l.bitmap_pa, l.bitmap_pa + l.bitmap_bytes, x);
    if covers(l.usable, x) {
        let i = choose|i: int| 0 <= i < rs.len() && (#[trigger] rs[i]).start <= x < rs[i].end;
        lemma_min_start_le(rs, i);
        lemma_max_end_ge(rs, i);
        assert(l.frames * 4096 >= span) by (nonlinear_arith)
            requires
                l.frames == (span + 4096 - 1) / 4096,
                span + 4096 - 1 == 4096 * ((span + 4096 - 1) / 4096) + (span + 4096 - 1) % 4096,
                0 <= (span + 4096 - 1) % 4096 < 4096,
        ;
    }
}

/// The frames that `set_range` (and so start-up and release) touch are
/// exactly the tracked frames lying wholly inside [start, end).
pub proof fn law_range_frames(base: int, start: int, end: int, frames: int, f: int)
    requires
        0 <= f < frames,
    ensures
        (range_first(base, start) <= f < range_last(base, end, frames))
            <==> (start <= frame_addr(base, f) && frame_addr(base, f) + PAGE_SIZE <= end),
{
    let d = if start > base { start - base } else { 0 };
    let e = if end > base { end - base } else { 0 };
    vstd::arithmetic::div_mod::lemma_fundamental_div_mod(d + 4095, 4096);
    vstd::arithmetic::div_mod::lemma_fundamental_div_mod(e, 4096);
    let q1 = (d + 4095) / 4096;
    let q2 = e / 4096;
    assert(q1 <= f <==> d <= f * 4096) by (nonlinear_arith)
        requires
            d + 4095 == 4096 * q1 + (d + 4095) % 4096,
            0 <= (d + 4095) % 4096 < 4096,
            d >= 0,
            f >= 0,
    ;
    assert(f < q2 <==> (f + 1) * 4096 <= e) by (nonlinear_arith)
        requires
            e == 4096 * q2 + e % 4096,
            0 <= e % 4096 < 4096,
            e >= 0,
            f >= 0,
    ;
    assert(f * 4096 >= 0 && (f + 1) * 4096 == f * 4096 + 4096) by (nonlinear_arith)
        requires f >= 0;
}

} // verus!
