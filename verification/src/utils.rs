//! Byte-level helpers: big-endian reads and alignment arithmetic.
use vstd::prelude::*;

verus! {

/// The big-endian 32-bit value of the four bytes of `s` starting at `off`.
pub open spec fn be_u32(s: Seq<u8>, off: int) -> int {
    s[off] as int * 0x100_0000 + s[off + 1] as int * 0x1_0000 + s[off + 2] as int * 0x100
        + s[off + 3] as int
}

/// The big-endian 64-bit value of the eight bytes of `s` starting at `off`.
pub open spec fn be_u64(s: Seq<u8>, off: int) -> int {
    be_u32(s, off) * 0x1_0000_0000 + be_u32(s, off + 4)
}

/// Reads the big-endian `u32` stored at byte offset `addr` of `bytes`.
pub fn read_be_u32_from_addr(bytes: &[u8], addr: usize) -> (r: u32)
    requires
        addr + 4 <= bytes.len(),
    ensures
        r == be_u32(bytes@, addr as int),
{
    let b0 = bytes[addr] as u32;
    let b1 = bytes[addr + 1] as u32;
    let b2 = bytes[addr + 2] as u32;
    let b3 = bytes[addr + 3] as u32;
    b0 * 0x100_0000 + b1 * 0x1_0000 + b2 * 0x100 + b3
}

/// Reads the big-endian `u64` stored at byte offset `addr` of `bytes`.
pub fn read_be_u64_from_addr(bytes: &[u8], addr: usize) -> (r: u64)
    requires
        addr + 8 <= bytes.len(),
    ensures
        r == be_u64(bytes@, addr as int),
{
    let hi = read_be_u32_from_addr(bytes, addr) as u64;
    let lo = read_be_u32_from_addr(bytes, addr + 4) as u64;
    hi * 0x1_0000_0000 + lo
}

} // verus!

verus! {

/// Length of the NUL-terminated string that starts at `start`, when its NUL
/// byte lies before `end`.
pub open spec fn nul_len(s: Seq<u8>, start: int, end: int) -> Option<int>
    decreases end - start,
{
    if start >= end {
        None
    } else if s[start] == 0 {
        Some(0)
    } else {
        match nul_len(s, start + 1, end) {
            Some(n) => Some(n + 1),
            None => None,
        }
    }
}

/// Skipping non-NUL bytes shifts the length found by the number skipped.
proof fn lemma_nul_len_skip(s: Seq<u8>, start: int, mid: int, end: int)
    requires
        start <= mid <= end,
        forall|j: int| start <= j < mid ==> s[j] != 0,
    ensures
        nul_len(s, start, end) == (match nul_len(s, mid, end) {
            Some(n) => Some(n + (mid - start)),
            None => None::<int>,
        }),
    decreases mid - start,
{
    if start < mid {
        lemma_nul_len_skip(s, start + 1, mid, end);
    }
}

/// A NUL found by `nul_len` lies where it says, with no NUL before it.
pub proof fn lemma_nul_len_facts(s: Seq<u8>, start: int, end: int)
    ensures
        nul_len(s, start, end) matches Some(n) ==> {
            &&& 0 <= n
            &&& start + n < end
            &&& s[start + n] == 0
            &&& forall|j: int| start <= j < start + n ==> s[j] != 0
        },
    decreases end - start,
{
    if start < end && s[start] != 0 {
        lemma_nul_len_facts(s, start + 1, end);
    }
}

/// Finds the NUL terminator of the string at `addr`, looking at no more
/// than `size` bytes, and returns the string's length without it.
pub fn get_null_terminated_u8_slice(bytes: &[u8], addr: usize, size: usize) -> (r: Option<usize>)
    requires
        addr + size <= bytes.len(),
    ensures
        r matches Some(n) ==> nul_len(bytes@, addr as int, addr + size) == Some(n as int),
        r is None ==> nul_len(bytes@, addr as int, addr + size) is None,
{
    let end = addr + size;
    let mut i = addr;
    while i < end
        invariant
            addr <= i <= end,
            end == addr + size,
            end <= bytes.len(),
            forall|j: int| addr <= j < i ==> bytes@[j] != 0,
        decreases end - i,
    {
        if bytes[i] == 0 {
            proof {
                lemma_nul_len_skip(bytes@, addr as int, i as int, end as int);
            }
            return Some(i - addr);
        }
        i = i + 1;
    }
    proof {
        lemma_nul_len_skip(bytes@, addr as int, end as int, end as int);
    }
    None
}

/// `x` rounded up to a multiple of 4.
pub open spec fn round4(x: int) -> int {
    x + (4 - x % 4) % 4
}

/// `x` rounded up to a multiple of 4; `x + 3` must not overflow.
pub fn align4(x: usize) -> (r: usize)
    requires
        x + 3 <= usize::MAX,
    ensures
        r == round4(x as int),
        r % 4 == 0,
        x <= r < x + 4,
{
    let y = x + 3;
    let r = y & !3usize;
    assert(r == x + (4 - x % 4) % 4) by (bit_vector)
        requires
            y == x + 3,
            r == y & !3usize,
    ;
    r
}

/// `x` rounded up to a multiple of `align`, a power of two.
pub fn align_up(x: usize, align: usize) -> (r: usize)
    requires
        align > 0,
        align & ((align - 1) as usize) == 0,
        x + align - 1 <= usize::MAX,
    ensures
        r & ((align - 1) as usize) == 0,
        x <= r < x + align,
{
    let y = x + (align - 1);
    let r = y & !(align - 1);
    assert(r <= y && y - r < align && r & ((align - 1) as usize) == 0) by (bit_vector)
        requires
            r == y & !((align - 1) as usize),
            align > 0,
            align & ((align - 1) as usize) == 0,
    ;
    r
}

/// `x` mebibytes, in bytes.
pub fn mb(x: usize) -> (r: usize)
    requires
        x * 1024 * 1024 <= usize::MAX,
    ensures
        r == x * 1024 * 1024,
{
    x * 1024 * 1024
}

} // verus!

verus! {

/// Reads the big-endian `u32` at the start of `v`, when `v` holds at least
/// four bytes.
pub fn read_be_u32_from_bytes(v: &[u8]) -> (r: Option<u32>)
    ensures
        v@.len() >= 4 ==> r == Some(be_u32(v@, 0) as u32),
        v@.len() < 4 ==> r is None,
{
    if v.len() < 4 {
        None
    } else {
        Some(read_be_u32_from_addr(v, 0))
    }
}

/// Whether the `len` bytes of `a` from `off` are exactly the bytes of `b`.
pub fn bytes_eq(a: &[u8], off: usize, len: usize, b: &[u8]) -> (r: bool)
    requires
        off + len <= a.len(),
    ensures
        r == (a@.subrange(off as int, off + len) == b@),
{
    if len != b.len() {
        proof {
            assert(a@.subrange(off as int, off + len).len() != b@.len());
        }
        return false;
    }
    let mut i = 0usize;
    while i < len
        invariant
            off + len <= a.len(),
            len == b@.len(),
            i <= len,
            forall|j: int| 0 <= j < i ==> a@[off + j] == b@[j],
        decreases len - i,
    {
        if a[off + i] != b[i] {
            proof {
                assert(a@.subrange(off as int, off + len)[i as int] != b@[i as int]);
            }
            return false;
        }
        i = i + 1;
    }
    proof {
        assert(a@.subrange(off as int, off + len) =~= b@);
    }
    true
}

/// Whether one of the strings of the NUL-separated list `v` from `start` on
/// is `s`. Each string ends at a zero byte; bytes after the last zero byte
/// form one more string, but nothing after a final zero byte does.
pub open spec fn nul_list_has(v: Seq<u8>, start: int, s: Seq<u8>) -> bool
    decreases v.len() - start,
{
    match nul_len(v, start, v.len() as int) {
        None => start < v.len() && v.subrange(start, v.len() as int) == s,
        Some(n) => {
            proof {
                lemma_nul_len_facts(v, start, v.len() as int);
            }
            v.subrange(start, start + n) == s || nul_list_has(v, start + n + 1, s)
        },
    }
}

/// Looking for a NUL in `p + b` past `p` is looking for it in `b`.
proof fn lemma_nul_len_shift(p: Seq<u8>, b: Seq<u8>, k: int)
    requires
        0 <= k <= b.len(),
    ensures
        nul_len(p + b, p.len() + k, (p.len() + b.len()) as int) == nul_len(b, k, b.len() as int),
    decreases b.len() - k,
{
    if k < b.len() {
        assert((p + b)[p.len() + k] == b[k]);
        lemma_nul_len_shift(p, b, k + 1);
    }
}

/// The list read from `p + b` past `p` is the list `b`.
proof fn lemma_nul_list_shift(p: Seq<u8>, b: Seq<u8>, k: int, s: Seq<u8>)
    requires
        0 <= k <= b.len(),
    ensures
        nul_list_has(p + b, p.len() + k, s) == nul_list_has(b, k, s),
    decreases b.len() - k,
{
    let v = p + b;
    lemma_nul_len_shift(p, b, k);
    lemma_nul_len_facts(b, k, b.len() as int);
    match nul_len(b, k, b.len() as int) {
        None => {
            assert(v.subrange(p.len() + k, v.len() as int) =~= b.subrange(k, b.len() as int));
        },
        Some(n) => {
            assert(v.subrange(p.len() + k, p.len() + k + n) =~= b.subrange(k, k + n));
            lemma_nul_list_shift(p, b, k + n + 1, s);
        },
    }
}

/// A list with no zero byte holds exactly one string, itself, unless it is
/// empty, in which case it holds none.
pub proof fn law_nul_list_single(a: Seq<u8>, s: Seq<u8>)
    requires
        forall|j: int| 0 <= j < a.len() ==> a[j] != 0,
    ensures
        nul_list_has(a, 0, s) == (a.len() > 0 && a == s),
{
    lemma_nul_len_skip(a, 0, a.len() as int, a.len() as int);
    assert(a.subrange(0, a.len() as int) =~= a);
}

/// A list that starts with the string `a` holds `s` exactly when `s` is `a`
/// or the rest of the list holds it: every string of the list counts,
/// wherever it stands.
pub proof fn law_nul_list_cons(a: Seq<u8>, b: Seq<u8>, s: Seq<u8>)
    requires
        forall|j: int| 0 <= j < a.len() ==> a[j] != 0,
    ensures
        nul_list_has(a + seq![0u8] + b, 0, s) == (a == s || nul_list_has(b, 0, s)),
{
    let p = a + seq![0u8];
    let v = p + b;
    assert(v[a.len() as int] == 0);
    assert forall|j: int| 0 <= j < a.len() implies v[j] != 0 by {
        assert(v[j] == a[j]);
    }
    lemma_nul_len_skip(v, 0, a.len() as int, v.len() as int);
    assert(nul_len(v, a.len() as int, v.len() as int) == Some(0int));
    assert(v.subrange(0, a.len() as int) =~= a);
    lemma_nul_list_shift(p, b, 0, s);
}

/// Whether the NUL-separated list of strings `v` holds `s`.
pub fn nul_list_contains(v: &[u8], s: &[u8]) -> (r: bool)
    ensures
        r == nul_list_has(v@, 0, s@),
{
    let mut start = 0usize;
    loop
        invariant
            start <= v@.len(),
            nul_list_has(v@, 0, s@) == nul_list_has(v@, start as int, s@),
        decreases v@.len() - start,
    {
        match get_null_terminated_u8_slice(v, start, v.len() - start) {
            None => {
                return start < v.len() && bytes_eq(v, start, v.len() - start, s);
            },
            Some(n) => {
                proof {
                    lemma_nul_len_facts(v@, start as int, v@.len() as int);
                }
                if bytes_eq(v, start, n, s) {
                    return true;
                }
                start = start + n + 1;
            },
        }
    }
}

} // verus!

verus! {

// ---------------------------------------------------------------- first match

/// `j` is the least index below `len` that satisfies `pred`.
pub open spec fn is_first(len: int, pred: spec_fn(int) -> bool, j: int) -> bool {
    &&& 0 <= j < len
    &&& pred(j)
    &&& forall|k: int| 0 <= k < j ==> !#[trigger] pred(k)
}

/// The least index below `len` that satisfies `pred`, if any does.
pub open spec fn first_index(len: int, pred: spec_fn(int) -> bool) -> Option<int> {
    if exists|j: int| is_first(len, pred, j) {
        Some(choose|j: int| is_first(len, pred, j))
    } else {
        None
    }
}

pub proof fn lemma_first_index_is(len: int, pred: spec_fn(int) -> bool, j: int)
    requires
        is_first(len, pred, j),
    ensures
        first_index(len, pred) == Some(j),
{
    let c = choose|i: int| is_first(len, pred, i);
    assert(is_first(len, pred, c));
    if c < j {
        assert(!pred(c));
    } else if j < c {
        assert(!pred(j));
    }
}

pub proof fn lemma_first_index_none(len: int, pred: spec_fn(int) -> bool)
    requires
        forall|k: int| 0 <= k < len ==> !#[trigger] pred(k),
    ensures
        first_index(len, pred) is None,
{
    if exists|j: int| is_first(len, pred, j) {
        let c = choose|i: int| is_first(len, pred, i);
        assert(pred(c));
    }
}

pub proof fn lemma_bit_set(x: u64, j: u64, k: u64)
    requires
        j < 64,
        k < 64,
    ensures
        ((x | (1u64 << j)) >> k) & 1 == 1 <==> ((x >> k) & 1 == 1 || k == j),
{
    assert(((x | (1u64 << j)) >> k) & 1 == 1 <==> ((x >> k) & 1 == 1 || k == j)) by (bit_vector)
        requires
            j < 64,
            k < 64,
    ;
}

pub proof fn lemma_bit_clear(x: u64, j: u64, k: u64)
    requires
        j < 64,
        k < 64,
    ensures
        ((x & !(1u64 << j)) >> k) & 1 == 1 <==> ((x >> k) & 1 == 1 && k != j),
{
    assert(((x & !(1u64 << j)) >> k) & 1 == 1 <==> ((x >> k) & 1 == 1 && k != j)) by (bit_vector)
        requires
            j < 64,
            k < 64,
    ;
}

pub proof fn lemma_bit_test(x: u64, j: u64)
    requires
        j < 64,
    ensures
        (x & (1u64 << j)) != 0 <==> (x >> j) & 1 == 1,
{
    assert((x & (1u64 << j)) != 0 <==> (x >> j) & 1 == 1) by (bit_vector)
        requires
            j < 64,
    ;
}

/// Every bit of an all-ones word is set.
pub proof fn lemma_all_ones(k: u64)
    requires
        k < 64,
    ensures
        (0xffff_ffff_ffff_ffffu64 >> k) & 1 == 1,
{
    assert((0xffff_ffff_ffff_ffffu64 >> k) & 1 == 1) by (bit_vector)
        requires
            k < 64,
    ;
}

} // verus!
