//! Flattened device tree (DTB) parsing: header validation, the counting pass
//! that sizes the arena, and the pass that builds the node tree.
use vstd::prelude::*;
use crate::fdt_links::{
    link_view, links_agree, links_bounded, links_in_range, lemma_add_prop_links, lemma_begin_node_links, lemma_links_begin, lemma_links_end,
    lemma_links_start, lemma_links_tree,
};
use crate::utils::{
    be_u32, be_u64, get_null_terminated_u8_slice, nul_len, read_be_u32_from_addr,
    read_be_u64_from_addr, round4, lemma_bit_set, lemma_bit_clear, lemma_bit_test,
};

verus! {

pub const MAGIC_VALUE: u32 = 0xd00d_feed;
pub const FDT_BEGIN_NODE: u32 = 1;
pub const FDT_NODE_END: u32 = 2;
pub const FDT_PROP: u32 = 3;
pub const FDT_NOP: u32 = 4;
pub const FDT_END: u32 = 9;

/// Nodes may nest at most this deep.
pub const MAX_CLOSED_DEPTH: u32 = 64;

/// Why the device tree could not be taken in.
#[derive(PartialEq, Eq, Structural, Clone, Copy, Debug)]
pub enum FdtError {
    NoDtb,
    BadHeader,
    BadStructure,
    ArenaFull,
}

/// The byte the boot console shows for a device-tree error.
pub fn fdt_error_code(e: FdtError) -> (r: u8)
    ensures
        r == match e {
            FdtError::NoDtb => 68u8,
            FdtError::BadHeader => 72u8,
            FdtError::BadStructure => 83u8,
            FdtError::ArenaFull => 65u8,
        },
{
    match e {
        FdtError::NoDtb => 68, // 'D'
        FdtError::BadHeader => 72, // 'H'
        FdtError::BadStructure => 83, // 'S'
        FdtError::ArenaFull => 65, // 'A'
    }
}

/// The blocks of a DTB, as byte offsets from the start of the blob.
#[derive(PartialEq, Eq, Structural, Clone, Copy, Debug)]
pub struct FdtBlocks {
    pub struct_base: usize,
    pub size_dt_struct: usize,
    pub string_base: usize,
    pub size_dt_strings: usize,
    pub rsvmap_base: usize,
    pub end: usize,
}

// ---------------------------------------------------------------- header

pub open spec fn hdr(s: Seq<u8>, field: int) -> int {
    be_u32(s, 4 * field)
}

/// Header fields, by their index in the header (each a big-endian word).
pub open spec fn hdr_total_size(s: Seq<u8>) -> int { hdr(s, 1) }
pub open spec fn hdr_off_dt_struct(s: Seq<u8>) -> int { hdr(s, 2) }
pub open spec fn hdr_off_dt_strings(s: Seq<u8>) -> int { hdr(s, 3) }
pub open spec fn hdr_off_mem_rsvmap(s: Seq<u8>) -> int { hdr(s, 4) }
pub open spec fn hdr_version(s: Seq<u8>) -> int { hdr(s, 5) }
pub open spec fn hdr_last_comp_version(s: Seq<u8>) -> int { hdr(s, 6) }

/// Size of the structure block: stored in the header from version 17 on,
/// otherwise the gap between the structure and strings blocks.
pub open spec fn hdr_size_dt_struct(s: Seq<u8>) -> int {
    if hdr_version(s) >= 17 { hdr(s, 9) } else { hdr_off_dt_strings(s) - hdr_off_dt_struct(s) }
}

/// Size of the strings block: stored in the header from version 17 on,
/// otherwise everything from the strings block to the end of the blob.
pub open spec fn hdr_size_dt_strings(s: Seq<u8>) -> int {
    if hdr_version(s) >= 17 { hdr(s, 8) } else { hdr_total_size(s) - hdr_off_dt_strings(s) }
}

/// The header of `s` is one this parser accepts.
pub open spec fn header_valid(s: Seq<u8>) -> bool {
    let total = hdr_total_size(s);
    &&& s.len() >= 8
    &&& be_u32(s, 0) == MAGIC_VALUE
    &&& 32 <= total <= s.len()
    &&& hdr_version(s) >= 16
    &&& hdr_last_comp_version(s) <= 17
    &&& hdr_version(s) >= 17 ==> total >= 40
    &&& hdr_version(s) < 17 ==> hdr_off_dt_struct(s) <= hdr_off_dt_strings(s) <= total
    &&& hdr_off_dt_struct(s) % 4 == 0
    &&& hdr_off_mem_rsvmap(s) % 8 == 0
    &&& hdr_off_dt_struct(s) + hdr_size_dt_struct(s) <= total
    &&& hdr_off_dt_strings(s) + hdr_size_dt_strings(s) <= total
    &&& hdr_off_mem_rsvmap(s) + 16 <= total
}

/// The blocks that a valid header describes.
pub open spec fn header_blocks(s: Seq<u8>) -> FdtBlocks {
    FdtBlocks {
        struct_base: hdr_off_dt_struct(s) as usize,
        size_dt_struct: hdr_size_dt_struct(s) as usize,
        string_base: hdr_off_dt_strings(s) as usize,
        size_dt_strings: hdr_size_dt_strings(s) as usize,
        rsvmap_base: hdr_off_mem_rsvmap(s) as usize,
        end: hdr_total_size(s) as usize,
    }
}

/// The blocks lie inside a blob of `len` bytes, in the way a valid header
/// places them.
pub open spec fn blocks_within(b: FdtBlocks, len: int) -> bool {
    &&& b.end <= len
    &&& b.struct_base + b.size_dt_struct <= b.end
    &&& b.string_base + b.size_dt_strings <= b.end
    &&& b.rsvmap_base + 16 <= b.end
    &&& b.struct_base % 4 == 0
}

/// Validates the DTB header and locates its blocks. `None` stands for a
/// missing blob. A blob shorter than the total size its header declares is
/// refused as `BadHeader`.
pub fn parse_header(dtb: Option<&[u8]>) -> (r: Result<FdtBlocks, FdtError>)
    ensures
        dtb is None ==> r == Err::<FdtBlocks, FdtError>(FdtError::NoDtb),
        dtb matches Some(s) ==> (r == if header_valid(s@) {
            Ok::<FdtBlocks, FdtError>(header_blocks(s@))
        } else {
            Err(FdtError::BadHeader)
        }),
        r matches Ok(b) ==> dtb matches Some(s) && blocks_within(b, s@.len() as int),
{
    let s = match dtb {
        None => { return Err(FdtError::NoDtb); },
        Some(s) => s,
    };
    if s.len() < 8 {
        return Err(FdtError::BadHeader);
    }
    if read_be_u32_from_addr(s, 0) != MAGIC_VALUE {
        return Err(FdtError::BadHeader);
    }
    let total_size = read_be_u32_from_addr(s, 4) as usize;
    if total_size < 32 {
        return Err(FdtError::BadHeader);
    }
    if total_size > s.len() {
        return Err(FdtError::BadHeader);
    }
    let off_dt_struct = read_be_u32_from_addr(s, 8) as usize;
    let off_dt_strings = read_be_u32_from_addr(s, 12) as usize;
    let off_mem_rsvmap = read_be_u32_from_addr(s, 16) as usize;
    let version = read_be_u32_from_addr(s, 20) as usize;
    let last_comp_version = read_be_u32_from_addr(s, 24) as usize;

    if version < 16 || last_comp_version > 17 {
        return Err(FdtError::BadHeader);
    }

    let (size_dt_struct, size_dt_strings) = if version >= 17 {
        if total_size < 40 {
            return Err(FdtError::BadHeader);
        }
        (read_be_u32_from_addr(s, 36) as usize, read_be_u32_from_addr(s, 32) as usize)
    } else {
        if off_dt_strings < off_dt_struct || off_dt_strings > total_size {
            return Err(FdtError::BadHeader);
        }
        (off_dt_strings - off_dt_struct, total_size - off_dt_strings)
    };

    if off_dt_struct % 4 != 0 || off_mem_rsvmap % 8 != 0 {
        return Err(FdtError::BadHeader);
    }

    if off_dt_struct > total_size || size_dt_struct > total_size - off_dt_struct
        || off_dt_strings > total_size || size_dt_strings > total_size - off_dt_strings
        || off_mem_rsvmap > total_size || 16 > total_size - off_mem_rsvmap {
        return Err(FdtError::BadHeader);
    }

    Ok(FdtBlocks {
        struct_base: off_dt_struct,
        size_dt_struct,
        string_base: off_dt_strings,
        size_dt_strings,
        rsvmap_base: off_mem_rsvmap,
        end: total_size,
    })
}


// ---------------------------------------------------------------- counting pass

/// What the counting pass learned: how many nodes, properties and reserved
/// memory regions the blob holds, and how deep its nodes nest.
#[derive(PartialEq, Eq, Structural, Clone, Copy, Debug)]
pub struct Counts {
    pub nodes: u32,
    pub props: u32,
    pub max_depth: u32,
    pub reserved: u32,
}

/// The state of a walk over the structure block: the cursor, the depth of
/// the innermost open node (-1 outside the root), the depths whose open node
/// already has a child node (it may then hold no more properties), and the
/// tallies so far.
pub struct WalkState {
    pub cursor: int,
    pub depth: int,
    pub has_child: Set<int>,
    pub nodes: int,
    pub props: int,
    pub max_depth: int,
}

pub open spec fn struct_end(b: FdtBlocks) -> int {
    b.struct_base + b.size_dt_struct
}

pub open spec fn strings_end(b: FdtBlocks) -> int {
    b.string_base + b.size_dt_strings
}

pub open spec fn walk_start(b: FdtBlocks) -> WalkState {
    WalkState {
        cursor: b.struct_base as int,
        depth: -1,
        has_child: Set::empty(),
        nodes: 0,
        props: 0,
        max_depth: 0,
    }
}

/// The token stream of the structure block from `st` on, token by token, up
/// to and including `FDT_END`. It yields the state after `FDT_END`, or
/// `BadStructure` at the first malformed token.
pub open spec fn walk(s: Seq<u8>, b: FdtBlocks, st: WalkState) -> Result<WalkState, FdtError>
    decreases struct_end(b) - st.cursor,
{
    let send = struct_end(b);
    if st.cursor + 4 > send {
        Err(FdtError::BadStructure)
    } else {
        let tok = be_u32(s, st.cursor);
        let c = st.cursor + 4;
        if tok == FDT_BEGIN_NODE {
            let d = st.depth + 1;
            if d >= MAX_CLOSED_DEPTH {
                Err(FdtError::BadStructure)
            } else {
                match nul_len(s, c, send) {
                    None => Err(FdtError::BadStructure),
                    Some(n) => {
                        proof {
                            crate::utils::lemma_nul_len_facts(s, c, send);
                        }
                        let next = round4(c + n + 1);
                        if next > send || st.nodes + 1 > u32::MAX {
                            Err(FdtError::BadStructure)
                        } else {
                            walk(s, b, WalkState {
                                cursor: next,
                                depth: d,
                                has_child: if d > 0 { st.has_child.insert(d - 1) } else { st.has_child },
                                nodes: st.nodes + 1,
                                max_depth: if st.max_depth > d + 1 { st.max_depth } else { d + 1 },
                                ..st
                            })
                        }
                    },
                }
            }
        } else if tok == FDT_PROP {
            if st.depth < 0 || st.has_child.contains(st.depth) || c + 8 > send {
                Err(FdtError::BadStructure)
            } else {
                let len = be_u32(s, c);
                let name_off = be_u32(s, c + 4);
                let v = c + 8;
                if v + len >= send || name_off >= b.size_dt_strings
                    || nul_len(s, b.string_base + name_off, strings_end(b)) is None {
                    Err(FdtError::BadStructure)
                } else {
                    let next = round4(v + len);
                    if next >= send || st.props + 1 > u32::MAX {
                        Err(FdtError::BadStructure)
                    } else {
                        walk(s, b, WalkState { cursor: next, props: st.props + 1, ..st })
                    }
                }
            }
        } else if tok == FDT_NODE_END {
            if st.depth < 0 {
                Err(FdtError::BadStructure)
            } else {
                walk(s, b, WalkState {
                    cursor: c,
                    depth: st.depth - 1,
                    has_child: st.has_child.remove(st.depth),
                    ..st
                })
            }
        } else if tok == FDT_NOP {
            walk(s, b, WalkState { cursor: c, ..st })
        } else if tok == FDT_END {
            Ok(WalkState { cursor: c, ..st })
        } else {
            Err(FdtError::BadStructure)
        }
    }
}

/// The number of entries of the memory reservation map from `cursor` on; the
/// map ends with an all-zero entry that must lie wholly before the blob's end.
pub open spec fn rsv_count(s: Seq<u8>, b: FdtBlocks, cursor: int, n: int) -> Result<int, FdtError>
    decreases b.end - cursor,
{
    if cursor + 16 >= b.end {
        Err(FdtError::BadStructure)
    } else if be_u64(s, cursor) == 0 && be_u64(s, cursor + 8) == 0 {
        Ok(n)
    } else if n + 1 > u32::MAX {
        Err(FdtError::BadStructure)
    } else {
        rsv_count(s, b, cursor + 16, n + 1)
    }
}

/// The result of the counting pass over a blob.
pub open spec fn count_spec(s: Seq<u8>, b: FdtBlocks) -> Result<Counts, FdtError> {
    match walk(s, b, walk_start(b)) {
        Err(e) => Err(e),
        Ok(f) => if f.depth != -1 {
            Err(FdtError::BadStructure)
        } else {
            match rsv_count(s, b, b.rsvmap_base as int, 0) {
                Err(e) => Err(e),
                Ok(r) => Ok(Counts {
                    nodes: f.nodes as u32,
                    props: f.props as u32,
                    max_depth: f.max_depth as u32,
                    reserved: r as u32,
                }),
            }
        },
    }
}

/// Pass 1: counts nodes, properties, the maximum depth and the reserved
/// memory regions, validating every token. These sizes fix the arena.
pub fn count(blob: &[u8], b: &FdtBlocks) -> (r: Result<Counts, FdtError>)
    requires
        blocks_within(*b, blob@.len() as int),
    ensures
        r == count_spec(blob@, *b),
        r is Err ==> r == Err::<Counts, FdtError>(FdtError::BadStructure),
{
    let ghost s = blob@;
    let ghost result = walk(s, *b, walk_start(*b));
    let mut cursor = b.struct_base;
    let struct_end = b.struct_base + b.size_dt_struct;
    let mut closed = 0u64;
    let mut depth: i32 = -1;
    let mut node_count = 0u32;
    let mut prop_count = 0u32;
    let mut max_depth = 0u32;
    let mut seen_end = false;
    let ghost mut st = walk_start(*b);

    assert forall|k: int| 0 <= k < 64 implies (((closed >> (k as u64)) & 1 == 1) <==> st.has_child.contains(k)) by {
        let kk = k as u64;
        assert((0u64 >> kk) & 1 == 0) by (bit_vector);
    }

    while 4 <= struct_end - cursor
        invariant_except_break
            !seen_end,
        invariant
            blocks_within(*b, blob@.len() as int),
            s == blob@,
            result == walk(s, *b, walk_start(*b)),
            struct_end == b.struct_base + b.size_dt_struct,
            cursor == st.cursor,
            b.struct_base <= cursor <= struct_end,
            depth as int == st.depth,
            -1 <= depth < 64,
            node_count as int == st.nodes,
            prop_count as int == st.props,
            max_depth as int == st.max_depth,
            forall|k: int| 0 <= k < 64 ==> (((closed >> (k as u64)) & 1 == 1) <==> st.has_child.contains(k)),
            !seen_end ==> walk(s, *b, st) == result,
            seen_end ==> result == Ok::<WalkState, FdtError>(st),
        ensures
            seen_end ==> result == Ok::<WalkState, FdtError>(st),
            !seen_end ==> walk(s, *b, st) == result && cursor + 4 > struct_end,
        decreases struct_end - cursor,
    {
        let token = read_be_u32_from_addr(blob, cursor);
        cursor = cursor + 4;
        if token == FDT_BEGIN_NODE {
            depth = depth + 1;
            if depth >= 64 {
                return Err(FdtError::BadStructure);
            }
            let name_len = match get_null_terminated_u8_slice(blob, cursor, struct_end - cursor) {
                None => { return Err(FdtError::BadStructure); },
                Some(n) => n,
            };
            proof {
                crate::utils::lemma_nul_len_facts(s, cursor as int, struct_end as int);
            }
            let x = cursor + name_len + 1;
            let pad = (4 - x % 4) % 4;
            if pad > struct_end - x {
                return Err(FdtError::BadStructure);
            }
            cursor = x + pad;
            let ghost old_closed = closed;
            if depth > 0 {
                closed = closed | (1u64 << ((depth - 1) as u64));
            }
            if node_count == u32::MAX {
                return Err(FdtError::BadStructure);
            }
            node_count = node_count + 1;
            if max_depth < (depth + 1) as u32 {
                max_depth = (depth + 1) as u32;
            }
            proof {
                let d = st.depth + 1;
                let nst = WalkState {
                    cursor: cursor as int,
                    depth: d,
                    has_child: if d > 0 { st.has_child.insert(d - 1) } else { st.has_child },
                    nodes: st.nodes + 1,
                    max_depth: if st.max_depth > d + 1 { st.max_depth } else { d + 1 },
                    ..st
                };
                assert forall|k: int| 0 <= k < 64 implies (((closed >> (k as u64)) & 1 == 1) <==> nst.has_child.contains(k)) by {
                    if d > 0 {
                        lemma_bit_set(old_closed, (d - 1) as u64, k as u64);
                    }
                }
                st = nst;
            }
        } else if token == FDT_PROP {
            if depth < 0 {
                return Err(FdtError::BadStructure);
            }
            proof { lemma_bit_test(closed, depth as u64); }
            if closed & (1u64 << (depth as u64)) != 0 {
                return Err(FdtError::BadStructure);
            }
            if cursor > struct_end || 8 > struct_end - cursor {
                return Err(FdtError::BadStructure);
            }
            let prop_len = read_be_u32_from_addr(blob, cursor) as usize;
            let name_off = read_be_u32_from_addr(blob, cursor + 4) as usize;
            cursor = cursor + 8;
            if prop_len >= struct_end - cursor || name_off >= b.size_dt_strings {
                return Err(FdtError::BadStructure);
            }
            if get_null_terminated_u8_slice(blob, b.string_base + name_off, b.size_dt_strings - name_off).is_none() {
                return Err(FdtError::BadStructure);
            }
            let x = cursor + prop_len;
            let pad = (4 - x % 4) % 4;
            if pad >= struct_end - x {
                return Err(FdtError::BadStructure);
            }
            cursor = x + pad;
            if prop_count == u32::MAX {
                return Err(FdtError::BadStructure);
            }
            prop_count = prop_count + 1;
            proof {
                st = WalkState { cursor: cursor as int, props: st.props + 1, ..st };
            }
        } else if token == FDT_NODE_END {
            if depth < 0 {
                return Err(FdtError::BadStructure);
            }
            let ghost old_closed = closed;
            closed = closed & !(1u64 << (depth as u64));
            depth = depth - 1;
            proof {
                let nst = WalkState {
                    cursor: cursor as int,
                    depth: st.depth - 1,
                    has_child: st.has_child.remove(st.depth),
                    ..st
                };
                assert forall|k: int| 0 <= k < 64 implies (((closed >> (k as u64)) & 1 == 1) <==> nst.has_child.contains(k)) by {
                    lemma_bit_clear(old_closed, (depth + 1) as u64, k as u64);
                }
                st = nst;
            }
        } else if token == FDT_NOP {
            proof {
                st = WalkState { cursor: cursor as int, ..st };
            }
        } else if token == FDT_END {
            seen_end = true;
            proof {
                st = WalkState { cursor: cursor as int, ..st };
            }
            break;
        } else {
            return Err(FdtError::BadStructure);
        }
    }

    if !seen_end || depth != -1 {
        return Err(FdtError::BadStructure);
    }

    let ghost wst = st;
    let mut cursor = b.rsvmap_base;
    let mut reserved = 0u32;
    loop
        invariant
            blocks_within(*b, blob@.len() as int),
            s == blob@,
            b.rsvmap_base <= cursor <= b.end,
            result == Ok::<WalkState, FdtError>(wst),
            result == walk(s, *b, walk_start(*b)),
            wst.depth == -1,
            node_count as int == wst.nodes,
            prop_count as int == wst.props,
            max_depth as int == wst.max_depth,
            rsv_count(s, *b, cursor as int, reserved as int) == rsv_count(s, *b, b.rsvmap_base as int, 0),
        ensures
            rsv_count(s, *b, b.rsvmap_base as int, 0) == Ok::<int, FdtError>(reserved as int),
            result == Ok::<WalkState, FdtError>(wst),
            wst.depth == -1,
            node_count as int == wst.nodes,
            prop_count as int == wst.props,
            max_depth as int == wst.max_depth,
        decreases b.end - cursor,
    {
        if cursor >= b.end || 16 >= b.end - cursor {
            return Err(FdtError::BadStructure);
        }
        if read_be_u64_from_addr(blob, cursor) == 0 && read_be_u64_from_addr(blob, cursor + 8) == 0 {
            break;
        }
        if reserved == u32::MAX {
            return Err(FdtError::BadStructure);
        }
        reserved = reserved + 1;
        cursor = cursor + 16;
    }

    Ok(Counts { nodes: node_count, props: prop_count, max_depth, reserved })
}


// ---------------------------------------------------------------- the arena

/// A device-tree node. Its name is `name_len` bytes of the blob from
/// `name_off`; the links are indices into the node table.
#[derive(PartialEq, Eq, Structural, Clone, Copy, Debug)]
pub struct Node {
    pub name_off: usize,
    pub name_len: usize,
    pub paren_idx: Option<usize>,
    pub first_child_idx: Option<usize>,
    pub next_sibling_idx: Option<usize>,
    pub first_prop_idx: Option<usize>,
    pub prop_count: u32,
}

/// A property: its name and its value, as ranges of the blob.
#[derive(PartialEq, Eq, Structural, Clone, Copy, Debug)]
pub struct Property {
    pub name_off: usize,
    pub name_len: usize,
    pub value_off: usize,
    pub value_len: usize,
}

/// An open node during the tree-building pass, with its last child so far.
#[derive(PartialEq, Eq, Structural, Clone, Copy, Debug)]
pub struct Frame {
    pub node_idx: usize,
    pub last_child_idx: Option<usize>,
}

/// A physical memory region.
#[derive(PartialEq, Eq, Structural, Clone, Copy, Debug)]
pub struct Resource {
    pub base: u64,
    pub size: u64,
}

/// The capacity of the arena that holds the parsed tree, in bytes.
pub const ARENA_SIZE_BYTES: usize = 65536;

/// A parsed device tree: the blob and the tables built from it. `used`
/// counts the arena bytes that the tables take up.
pub struct Fdt {
    pub blob: Vec<u8>,
    pub total_size: u32,
    pub used: usize,
    pub root: usize,
    pub nodes: Vec<Node>,
    pub props: Vec<Property>,
    pub reserved: Vec<Resource>,
    pub frames: Vec<Frame>,
}

pub open spec fn empty_node() -> Node {
    Node {
        name_off: 0,
        name_len: 0,
        paren_idx: None,
        first_child_idx: None,
        next_sibling_idx: None,
        first_prop_idx: None,
        prop_count: 0,
    }
}

pub open spec fn empty_prop() -> Property {
    Property { name_off: 0, name_len: 0, value_off: 0, value_len: 0 }
}

pub open spec fn empty_frame() -> Frame {
    Frame { node_idx: 0, last_child_idx: None }
}

pub open spec fn empty_resource() -> Resource {
    Resource { base: 0, size: 0 }
}

/// Node `i` links only forwards to children and siblings, backwards to its
/// parent, and its names and properties lie inside the tables and the blob.
pub open spec fn node_wf(nodes: Seq<Node>, props_len: int, blob_len: int, i: int) -> bool {
    let n = nodes[i];
    &&& n.paren_idx matches Some(p) ==> p < i
    &&& n.first_child_idx matches Some(c) ==> i < c < nodes.len()
    &&& n.next_sibling_idx matches Some(x) ==> i < x < nodes.len()
    &&& n.first_prop_idx matches Some(f) ==> f + n.prop_count <= props_len
    &&& n.first_prop_idx is None ==> n.prop_count == 0
    &&& n.name_off + n.name_len <= blob_len
}

pub open spec fn prop_wf(p: Property, blob_len: int) -> bool {
    &&& p.name_off + p.name_len <= blob_len
    &&& p.value_off + p.value_len <= blob_len
}

impl Fdt {
    /// The tables are consistent: every link stays inside them, parents come
    /// before their children, and every name and value lies in the blob.
    pub open spec fn wf(&self) -> bool {
        &&& forall|i: int| 0 <= i < self.nodes@.len() ==> #[trigger] node_wf(self.nodes@, self.props@.len() as int, self.blob@.len() as int, i)
        &&& forall|j: int| 0 <= j < self.props@.len() ==> #[trigger] prop_wf(self.props@[j], self.blob@.len() as int)
        &&& self.nodes@.len() > 0 ==> self.root < self.nodes@.len()
    }

    /// The links agree: the first child of a node names that node as its
    /// parent, a node's next sibling has the same parent as the node, and a
    /// node with a parent is that parent's first child or the next sibling of
    /// another of its children.
    pub open spec fn tree_linked(&self) -> bool {
        &&& forall|i: int| 0 <= i < self.nodes@.len() ==> ((#[trigger] self.nodes@[i]).first_child_idx matches Some(c)
            ==> self.nodes@[c as int].paren_idx == Some(i as usize))
        &&& forall|i: int| 0 <= i < self.nodes@.len() ==> ((#[trigger] self.nodes@[i]).next_sibling_idx matches Some(x)
            ==> self.nodes@[x as int].paren_idx == self.nodes@[i].paren_idx)
        &&& forall|j: int| 0 <= j < self.nodes@.len() ==> ((#[trigger] self.nodes@[j]).paren_idx matches Some(p)
            ==> self.nodes@[p as int].first_child_idx == Some(j as usize)
                || exists|k: int| 0 <= k < self.nodes@.len() && (#[trigger] self.nodes@[k]).next_sibling_idx == Some(j as usize)
                    && self.nodes@[k].paren_idx == Some(p))
    }

    /// A node's first child is its child of least index, and no child of a
    /// node's parent lies between the node and its next sibling.
    pub open spec fn children_in_order(&self) -> bool {
        &&& forall|j: int| 0 <= j < self.nodes@.len() ==> ((#[trigger] self.nodes@[j]).paren_idx matches Some(p)
            ==> (self.nodes@[p as int].first_child_idx matches Some(c) && c <= j))
        &&& forall|k: int, j: int| #![trigger self.nodes@[k], self.nodes@[j]] 0 <= k < j < self.nodes@.len()
            ==> (self.nodes@[k].next_sibling_idx matches Some(x) ==> (j < x ==> self.nodes@[j].paren_idx != self.nodes@[k].paren_idx))
    }

    /// The nodes are numbered in document order: each node's name lies in
    /// the blob after the names of the nodes before it, so node `i` is the
    /// one opened by the `i`-th `FDT_BEGIN_NODE` token. The root has no
    /// parent, a node's first child is its earliest child, and a node's
    /// next sibling is the next child of its parent.
    pub open spec fn in_document_order(&self) -> bool {
        &&& forall|i: int, j: int| #![trigger self.nodes@[i], self.nodes@[j]] 0 <= i < j < self.nodes@.len()
            ==> self.nodes@[i].name_off < self.nodes@[j].name_off
        &&& self.nodes@.len() > 0 ==> self.nodes@[self.root as int].paren_idx is None
        &&& self.children_in_order()
    }

    /// An arena with nothing in it.
    pub fn new(blob: Vec<u8>, total_size: u32) -> (r: Fdt)
        ensures
            r.blob@ == blob@,
            r.total_size == total_size,
            r.used == 0,
            r.root == 0,
            r.nodes@.len() == 0,
            r.props@.len() == 0,
            r.reserved@.len() == 0,
            r.frames@.len() == 0,
    {
        Fdt {
            blob,
            total_size,
            used: 0,
            root: 0,
            nodes: Vec::new(),
            props: Vec::new(),
            reserved: Vec::new(),
            frames: Vec::new(),
        }
    }
}

/// `x` rounded up to a multiple of `a`.
pub open spec fn round_up(x: int, a: int) -> int {
    if x % a == 0 { x } else { x + (a - x % a) }
}

/// The arena's fill level after a bump allocation of `size` bytes aligned to
/// `align`, or `None` when it does not fit.
pub open spec fn arena_step(used: Option<int>, size: int, align: int) -> Option<int> {
    match used {
        None => None,
        Some(u) => {
            let start = round_up(u, align);
            if start + size <= ARENA_SIZE_BYTES { Some(start + size) } else { None }
        },
    }
}

/// The fill level after reserving the four tables sized by `c`, in the
/// order nodes, properties, frames, reserved regions.
pub open spec fn arena_plan(used: int, c: Counts) -> Option<int> {
    let a1 = arena_step(Some(used), c.nodes * vstd::layout::size_of::<Node>(), vstd::layout::align_of::<Node>() as int);
    let a2 = arena_step(a1, c.props * vstd::layout::size_of::<Property>(), vstd::layout::align_of::<Property>() as int);
    let a3 = arena_step(a2, c.max_depth * vstd::layout::size_of::<Frame>(), vstd::layout::align_of::<Frame>() as int);
    arena_step(a3, c.reserved * vstd::layout::size_of::<Resource>(), vstd::layout::align_of::<Resource>() as int)
}

impl Fdt {
    /// Bump-allocates `size` bytes aligned to `align` from the arena and
    /// returns their offset from its start.
    pub fn arena_alloc(&mut self, size: usize, align: usize) -> (r: Result<usize, FdtError>)
        requires
            align > 0,
            old(self).used <= ARENA_SIZE_BYTES,
        ensures
            ({
                let start = round_up(old(self).used as int, align as int);
                if start + size <= ARENA_SIZE_BYTES {
                    r == Ok::<usize, FdtError>(start as usize) && final(self).used == start + size
                } else {
                    r == Err::<usize, FdtError>(FdtError::ArenaFull) && final(self).used == old(self).used
                }
            }),
            final(self).blob == old(self).blob,
            final(self).total_size == old(self).total_size,
            final(self).root == old(self).root,
            final(self).nodes == old(self).nodes,
            final(self).props == old(self).props,
            final(self).reserved == old(self).reserved,
            final(self).frames == old(self).frames,
    {
        let rem = self.used % align;
        let start = if rem == 0 {
            self.used
        } else {
            match self.used.checked_add(align - rem) {
                Some(v) => v,
                None => { return Err(FdtError::ArenaFull); },
            }
        };
        let end = match start.checked_add(size) {
            Some(e) => e,
            None => { return Err(FdtError::ArenaFull); },
        };
        if end > ARENA_SIZE_BYTES {
            return Err(FdtError::ArenaFull);
        }
        self.used = end;
        Ok(start)
    }
}

fn fill_nodes(n: usize) -> (v: Vec<Node>)
    ensures
        v@ == Seq::new(n as nat, |i: int| empty_node()),
{
    let mut v: Vec<Node> = Vec::new();
    while v.len() < n
        invariant
            v.len() <= n,
            v@ == Seq::new(v.len() as nat, |i: int| empty_node()),
        decreases n - v.len(),
    {
        v.push(Node {
            name_off: 0,
            name_len: 0,
            paren_idx: None,
            first_child_idx: None,
            next_sibling_idx: None,
            first_prop_idx: None,
            prop_count: 0,
        });
    }
    v
}

fn fill_props(n: usize) -> (v: Vec<Property>)
    ensures
        v@ == Seq::new(n as nat, |i: int| empty_prop()),
{
    let mut v: Vec<Property> = Vec::new();
    while v.len() < n
        invariant
            v.len() <= n,
            v@ == Seq::new(v.len() as nat, |i: int| empty_prop()),
        decreases n - v.len(),
    {
        v.push(Property { name_off: 0, name_len: 0, value_off: 0, value_len: 0 });
    }
    v
}

fn fill_frames(n: usize) -> (v: Vec<Frame>)
    ensures
        v@ == Seq::new(n as nat, |i: int| empty_frame()),
{
    let mut v: Vec<Frame> = Vec::new();
    while v.len() < n
        invariant
            v.len() <= n,
            v@ == Seq::new(v.len() as nat, |i: int| empty_frame()),
        decreases n - v.len(),
    {
        v.push(Frame { node_idx: 0, last_child_idx: None });
    }
    v
}

fn fill_resources(n: usize) -> (v: Vec<Resource>)
    ensures
        v@ == Seq::new(n as nat, |i: int| empty_resource()),
{
    let mut v: Vec<Resource> = Vec::new();
    while v.len() < n
        invariant
            v.len() <= n,
            v@ == Seq::new(v.len() as nat, |i: int| empty_resource()),
        decreases n - v.len(),
    {
        v.push(Resource { base: 0, size: 0 });
    }
    v
}

impl Fdt {
    /// Reserves the node, property, frame and reserved-region tables in the
    /// arena, sized by `c`. Fails with `ArenaFull` as soon as one does not fit.
    pub fn init_arena(&mut self, c: &Counts) -> (r: Result<(), FdtError>)
        requires
            old(self).used <= ARENA_SIZE_BYTES,
        ensures
            r is Ok <==> arena_plan(old(self).used as int, *c) is Some,
            r is Err ==> r == Err::<(), FdtError>(FdtError::ArenaFull),
            r is Ok ==> {
                &&& final(self).used == arena_plan(old(self).used as int, *c)->Some_0
                &&& final(self).nodes@ == Seq::new(c.nodes as nat, |i: int| empty_node())
                &&& final(self).props@ == Seq::new(c.props as nat, |i: int| empty_prop())
                &&& final(self).frames@ == Seq::new(c.max_depth as nat, |i: int| empty_frame())
                &&& final(self).reserved@ == Seq::new(c.reserved as nat, |i: int| empty_resource())
            },
            final(self).used <= ARENA_SIZE_BYTES,
            final(self).blob == old(self).blob,
            final(self).total_size == old(self).total_size,
            final(self).root == old(self).root,
    {
        vstd::layout::layout_for_type_is_valid::<Node>();
        vstd::layout::layout_for_type_is_valid::<Property>();
        vstd::layout::layout_for_type_is_valid::<Frame>();
        vstd::layout::layout_for_type_is_valid::<Resource>();

        let size = match (c.nodes as usize).checked_mul(core::mem::size_of::<Node>()) {
            Some(v) => v,
            None => { return Err(FdtError::ArenaFull); },
        };
        self.arena_alloc(size, core::mem::align_of::<Node>())?;
        self.nodes = fill_nodes(c.nodes as usize);

        let size = match (c.props as usize).checked_mul(core::mem::size_of::<Property>()) {
            Some(v) => v,
            None => { return Err(FdtError::ArenaFull); },
        };
        self.arena_alloc(size, core::mem::align_of::<Property>())?;
        self.props = fill_props(c.props as usize);

        let size = match (c.max_depth as usize).checked_mul(core::mem::size_of::<Frame>()) {
            Some(v) => v,
            None => { return Err(FdtError::ArenaFull); },
        };
        self.arena_alloc(size, core::mem::align_of::<Frame>())?;
        self.frames = fill_frames(c.max_depth as usize);

        let size = match (c.reserved as usize).checked_mul(core::mem::size_of::<Resource>()) {
            Some(v) => v,
            None => { return Err(FdtError::ArenaFull); },
        };
        self.arena_alloc(size, core::mem::align_of::<Resource>())?;
        self.reserved = fill_resources(c.reserved as usize);
        Ok(())
    }
}


// ---------------------------------------------------------------- tree-building pass

/// The tables as the building pass fills them: the node and property
/// tables, the stack of open nodes (`frames[..sp]`), the root, and the next
/// free slots.
pub struct BuildState {
    pub nodes: Seq<Node>,
    pub props: Seq<Property>,
    pub frames: Seq<Frame>,
    pub root: int,
    pub node_idx: int,
    pub prop_idx: int,
    pub sp: int,
}

/// Opens a node whose name is the `n` bytes at `c`: it takes the next node
/// slot, is linked under the innermost open node (as its first child or as
/// the next sibling of its last child) and is pushed on the stack.
#[verifier::opaque]
pub open spec fn begin_node(bs: BuildState, c: int, n: int) -> BuildState {
    let i = bs.node_idx;
    let fresh = Node {
        name_off: c as usize,
        name_len: n as usize,
        paren_idx: None,
        first_child_idx: None,
        next_sibling_idx: None,
        first_prop_idx: None,
        prop_count: 0,
    };
    let top = Frame { node_idx: i as usize, last_child_idx: None };
    if bs.sp == 0 {
        BuildState {
            nodes: bs.nodes.update(i, fresh),
            frames: bs.frames.update(0, top),
            root: i,
            node_idx: i + 1,
            sp: 1,
            ..bs
        }
    } else {
        let pf = bs.frames[bs.sp - 1];
        let p = pf.node_idx as int;
        let n1 = bs.nodes.update(i, Node { paren_idx: Some(p as usize), ..fresh });
        let n2 = match pf.last_child_idx {
            Some(lc) => n1.update(lc as int, Node { next_sibling_idx: Some(i as usize), ..n1[lc as int] }),
            None => n1.update(p, Node { first_child_idx: Some(i as usize), ..n1[p] }),
        };
        let f1 = bs.frames.update(bs.sp - 1, Frame { last_child_idx: Some(i as usize), ..pf });
        BuildState {
            nodes: n2,
            frames: f1.update(bs.sp, top),
            node_idx: i + 1,
            sp: bs.sp + 1,
            ..bs
        }
    }
}

/// Adds property `p` to the innermost open node: it takes the next property
/// slot, which becomes the node's first property if it had none.
pub open spec fn add_prop(bs: BuildState, p: Property) -> BuildState {
    let cur = bs.frames[bs.sp - 1].node_idx as int;
    let nd = bs.nodes[cur];
    let nd1 = if nd.prop_count == 0 { Node { first_prop_idx: Some(bs.prop_idx as usize), ..nd } } else { nd };
    let nd2 = Node { prop_count: (nd1.prop_count + 1) as u32, ..nd1 };
    BuildState {
        nodes: bs.nodes.update(cur, nd2),
        props: bs.props.update(bs.prop_idx, p),
        prop_idx: bs.prop_idx + 1,
        ..bs
    }
}

/// The tables built from the structure block from `cursor` on, token by
/// token, until `FDT_END`.
pub open spec fn build(s: Seq<u8>, b: FdtBlocks, cursor: int, bs: BuildState) -> BuildState
    decreases struct_end(b) - cursor,
{
    let send = struct_end(b);
    if cursor + 4 > send {
        bs
    } else {
        let tok = be_u32(s, cursor);
        let c = cursor + 4;
        if tok == FDT_BEGIN_NODE {
            match nul_len(s, c, send) {
                None => bs,
                Some(n) => {
                    proof {
                        crate::utils::lemma_nul_len_facts(s, c, send);
                    }
                    let next = round4(c + n + 1);
                    if next > send { bs } else { build(s, b, next, begin_node(bs, c, n)) }
                },
            }
        } else if tok == FDT_PROP {
            if c + 8 > send {
                bs
            } else {
                let len = be_u32(s, c);
                let name_off = be_u32(s, c + 4);
                let v = c + 8;
                let next = round4(v + len);
                if next >= send {
                    bs
                } else {
                    let name_len = match nul_len(s, b.string_base + name_off, strings_end(b)) {
                        Some(n) => n,
                        None => 0,
                    };
                    build(s, b, next, add_prop(bs, Property {
                        name_off: (b.string_base + name_off) as usize,
                        name_len: name_len as usize,
                        value_off: v as usize,
                        value_len: len as usize,
                    }))
                }
            }
        } else if tok == FDT_NODE_END {
            build(s, b, c, BuildState { sp: bs.sp - 1, ..bs })
        } else if tok == FDT_NOP {
            build(s, b, c, bs)
        } else {
            bs
        }
    }
}

/// A successful walk only grows the tallies, and keeps them in range.
proof fn lemma_walk_bounds(s: Seq<u8>, b: FdtBlocks, st: WalkState)
    requires
        walk(s, b, st) is Ok,
        0 <= st.nodes <= u32::MAX,
        0 <= st.props <= u32::MAX,
        0 <= st.max_depth <= MAX_CLOSED_DEPTH,
    ensures
        st.nodes <= walk(s, b, st)->Ok_0.nodes <= u32::MAX,
        st.props <= walk(s, b, st)->Ok_0.props <= u32::MAX,
        st.max_depth <= walk(s, b, st)->Ok_0.max_depth <= MAX_CLOSED_DEPTH,
    decreases struct_end(b) - st.cursor,
{
    let send = struct_end(b);
    if st.cursor + 4 <= send {
        let tok = be_u32(s, st.cursor);
        let c = st.cursor + 4;
        if tok == FDT_BEGIN_NODE {
            let d = st.depth + 1;
            crate::utils::lemma_nul_len_facts(s, c, send);
            let n = nul_len(s, c, send)->Some_0;
            let next = round4(c + n + 1);
            lemma_walk_bounds(s, b, WalkState {
                cursor: next,
                depth: d,
                has_child: if d > 0 { st.has_child.insert(d - 1) } else { st.has_child },
                nodes: st.nodes + 1,
                max_depth: if st.max_depth > d + 1 { st.max_depth } else { d + 1 },
                ..st
            });
        } else if tok == FDT_PROP {
            let len = be_u32(s, c);
            let v = c + 8;
            let next = round4(v + len);
            lemma_walk_bounds(s, b, WalkState { cursor: next, props: st.props + 1, ..st });
        } else if tok == FDT_NODE_END {
            lemma_walk_bounds(s, b, WalkState {
                cursor: c,
                depth: st.depth - 1,
                has_child: st.has_child.remove(st.depth),
                ..st
            });
        } else if tok == FDT_NOP {
            lemma_walk_bounds(s, b, WalkState { cursor: c, ..st });
        }
    }
}

/// A successful count of the reservation map covers entries that all lie
/// before the blob's end.
proof fn lemma_rsv_bounds(s: Seq<u8>, b: FdtBlocks, cursor: int, n: int)
    requires
        rsv_count(s, b, cursor, n) is Ok,
    ensures
        n <= rsv_count(s, b, cursor, n)->Ok_0,
        n <= u32::MAX ==> rsv_count(s, b, cursor, n)->Ok_0 <= u32::MAX,
        cursor + 16 * (rsv_count(s, b, cursor, n)->Ok_0 - n) + 16 < b.end,
    decreases b.end - cursor,
{
    if cursor + 16 < b.end && !(be_u64(s, cursor) == 0 && be_u64(s, cursor + 8) == 0) {
        lemma_rsv_bounds(s, b, cursor + 16, n + 1);
    }
}

/// The tables `parse_dt` starts from.
pub open spec fn build_start(f: &Fdt) -> BuildState {
    BuildState {
        nodes: f.nodes@,
        props: f.props@,
        frames: f.frames@,
        root: f.root as int,
        node_idx: 0,
        prop_idx: 0,
        sp: 0,
    }
}

/// The tables are sized as the counting pass found.
pub open spec fn sized_for(f: &Fdt, c: Counts) -> bool {
    &&& f.nodes@.len() == c.nodes
    &&& f.props@.len() == c.props
    &&& f.frames@.len() == c.max_depth
    &&& f.reserved@.len() == c.reserved
}

/// The reserved-region table holds the entries of the reservation map.
pub open spec fn reserved_filled(s: Seq<u8>, b: FdtBlocks, r: Seq<Resource>) -> bool {
    forall|i: int| 0 <= i < r.len() ==> #[trigger] r[i] == (Resource {
        base: be_u64(s, b.rsvmap_base + 16 * i) as u64,
        size: be_u64(s, b.rsvmap_base + 16 * i + 8) as u64,
    })
}

impl Fdt {
    /// Pass 2: fills the arena tables with node and property entries and
    /// links parents, children and siblings. On a blob that the counting
    /// pass accepted, with tables of the sizes it found, this cannot fail.
    #[verifier::rlimit(50)]
    pub fn parse_dt(&mut self, b: &FdtBlocks) -> (r: Result<(), FdtError>)
        requires
            blocks_within(*b, old(self).blob@.len() as int),
            count_spec(old(self).blob@, *b) is Ok,
            sized_for(old(self), count_spec(old(self).blob@, *b)->Ok_0),
            old(self).nodes@ == Seq::new(old(self).nodes@.len(), |i: int| empty_node()),
            old(self).props@ == Seq::new(old(self).props@.len(), |i: int| empty_prop()),
        ensures
            r is Ok,
            final(self).nodes@ == build(old(self).blob@, *b, b.struct_base as int, build_start(old(self))).nodes,
            final(self).props@ == build(old(self).blob@, *b, b.struct_base as int, build_start(old(self))).props,
            final(self).frames@ == build(old(self).blob@, *b, b.struct_base as int, build_start(old(self))).frames,
            final(self).root == build(old(self).blob@, *b, b.struct_base as int, build_start(old(self))).root,
            final(self).reserved@.len() == old(self).reserved@.len(),
            reserved_filled(old(self).blob@, *b, final(self).reserved@),
            final(self).blob == old(self).blob,
            final(self).total_size == old(self).total_size,
            final(self).used == old(self).used,
            final(self).wf(),
            final(self).tree_linked(),
            final(self).in_document_order(),
    {
        let ghost s = self.blob@;
        let ghost c = count_spec(s, *b)->Ok_0;
        let ghost fin = walk(s, *b, walk_start(*b))->Ok_0;
        let ghost target = build(s, *b, b.struct_base as int, build_start(self));
        let ghost blen = s.len() as int;
        proof {
            lemma_walk_bounds(s, *b, walk_start(*b));
        }

        let mut cursor = b.struct_base;
        let struct_end = b.struct_base + b.size_dt_struct;
        let mut node_idx = 0usize;
        let mut prop_idx = 0usize;
        let mut sp = 0usize;
        let mut seen_end = false;
        let ghost mut st = walk_start(*b);
        proof {
            lemma_links_start(self.nodes@, self.frames@);
        }

        while 4 <= struct_end - cursor
            invariant_except_break
                !seen_end,
                cursor == st.cursor,
                walk(s, *b, st) == Ok::<WalkState, FdtError>(fin),
                build(s, *b, cursor as int, (BuildState {
                    nodes: self.nodes@, props: self.props@, frames: self.frames@, root: self.root as int,
                    node_idx: node_idx as int, prop_idx: prop_idx as int, sp: sp as int,
                })) == target,
            invariant
                blocks_within(*b, s.len() as int),
                s == self.blob@,
                target == build(s, *b, b.struct_base as int, build_start(old(self))),
                blen == s.len(),
                struct_end == b.struct_base + b.size_dt_struct,
                fin == walk(s, *b, walk_start(*b))->Ok_0,
                fin.nodes == c.nodes,
                fin.props == c.props,
                fin.max_depth == c.max_depth,
                sized_for(self, c),
                b.struct_base <= cursor <= struct_end,
                st.depth == sp - 1,
                node_idx == st.nodes,
                prop_idx == st.props,
                sp <= st.max_depth,
                0 <= st.max_depth <= MAX_CLOSED_DEPTH,
                seen_end ==> fin.nodes == node_idx && fin.props == prop_idx,
                seen_end ==> target == (BuildState {
                    nodes: self.nodes@, props: self.props@, frames: self.frames@, root: self.root as int,
                    node_idx: node_idx as int, prop_idx: prop_idx as int, sp: sp as int,
                }),
                st.nodes <= fin.nodes,
                st.props <= fin.props,
                st.max_depth <= fin.max_depth,
                fin.nodes <= u32::MAX,
                fin.props <= u32::MAX,
                fin.max_depth <= MAX_CLOSED_DEPTH,
                self.blob == old(self).blob,
                self.total_size == old(self).total_size,
                self.used == old(self).used,
                self.reserved == old(self).reserved,
                // what keeps the tables consistent
                forall|k: int| 0 <= k < sp ==> (#[trigger] self.frames@[k]).node_idx < node_idx,
                forall|k: int| 0 <= k < sp ==> ((#[trigger] self.frames@[k]).last_child_idx matches Some(lc)
                    ==> self.frames@[k].node_idx < lc < node_idx),
                forall|i: int| 0 <= i < self.nodes@.len() ==> {
                    let n = #[trigger] self.nodes@[i];
                    &&& n.paren_idx matches Some(p) ==> p < i
                    &&& n.first_child_idx matches Some(ch) ==> i < ch < node_idx
                    &&& n.next_sibling_idx matches Some(x) ==> i < x < node_idx
                    &&& n.first_prop_idx matches Some(f) ==> f + n.prop_count <= prop_idx
                    &&& n.first_prop_idx is None ==> n.prop_count == 0
                    &&& n.name_off + n.name_len <= blen
                },
                forall|j: int| 0 <= j < self.props@.len() ==> #[trigger] prop_wf(self.props@[j], blen),
                links_agree(link_view(self.nodes@), self.frames@, sp as int, node_idx as int),
                node_idx > 0 ==> self.root < node_idx,
                node_idx > 0 ==> self.nodes@[self.root as int].paren_idx is None,
                forall|i: int, j: int| #![trigger self.nodes@[i], self.nodes@[j]] 0 <= i < j < node_idx
                    ==> self.nodes@[i].name_off < self.nodes@[j].name_off,
                forall|i: int| 0 <= i < node_idx ==> (#[trigger] self.nodes@[i]).name_off < cursor,
                node_idx == 0 ==> self.root == old(self).root,
            ensures
                fin.nodes == node_idx && fin.props == prop_idx,
                build(s, *b, b.struct_base as int, build_start(old(self))) == (BuildState {
                    nodes: self.nodes@, props: self.props@, frames: self.frames@, root: self.root as int,
                    node_idx: node_idx as int, prop_idx: prop_idx as int, sp: sp as int,
                }),
            decreases struct_end - cursor,
        {
            let token = read_be_u32_from_addr(&self.blob, cursor);
            let tok_at = cursor;
            cursor = cursor + 4;
            if token == FDT_BEGIN_NODE {
                let name_len = match get_null_terminated_u8_slice(&self.blob, cursor, struct_end - cursor) {
                    None => { return Err(FdtError::BadStructure); },
                    Some(n) => n,
                };
                proof {
                    crate::utils::lemma_nul_len_facts(s, cursor as int, struct_end as int);
                }
                let name_off = cursor;
                let x = cursor + name_len + 1;
                let pad = (4 - x % 4) % 4;
                cursor = x + pad;
                let ghost bs0 = BuildState {
                    nodes: self.nodes@, props: self.props@, frames: self.frames@, root: self.root as int,
                    node_idx: node_idx as int, prop_idx: prop_idx as int, sp: sp as int,
                };
                proof {
                    let d = st.depth + 1;
                    st = WalkState {
                        cursor: cursor as int,
                        depth: d,
                        has_child: if d > 0 { st.has_child.insert(d - 1) } else { st.has_child },
                        nodes: st.nodes + 1,
                        max_depth: if st.max_depth > d + 1 { st.max_depth } else { d + 1 },
                        ..st
                    };
                    lemma_walk_bounds(s, *b, st);
                    assert(self.nodes@.len() == self.nodes.len());
                    assert(links_bounded(link_view(bs0.nodes), bs0.frames, bs0.sp, bs0.node_idx));
                    lemma_links_begin(link_view(bs0.nodes), bs0.frames, bs0.sp, bs0.node_idx);
                    lemma_begin_node_links(bs0, name_off as int, name_len as int);
                }
                let fresh = Node {
                    name_off,
                    name_len,
                    paren_idx: None,
                    first_child_idx: None,
                    next_sibling_idx: None,
                    first_prop_idx: None,
                    prop_count: 0,
                };
                if sp == 0 {
                    self.nodes.set(node_idx, fresh);
                    self.root = node_idx;
                } else {
                    let paren_frame = self.frames[sp - 1];
                    let paren = paren_frame.node_idx;
                    self.nodes.set(node_idx, Node { paren_idx: Some(paren), ..fresh });
                    match paren_frame.last_child_idx {
                        Some(lc) => {
                            let last = self.nodes[lc];
                            self.nodes.set(lc, Node { next_sibling_idx: Some(node_idx), ..last });
                        },
                        None => {
                            let pn = self.nodes[paren];
                            self.nodes.set(paren, Node { first_child_idx: Some(node_idx), ..pn });
                        },
                    }
                    self.frames.set(sp - 1, Frame { node_idx: paren, last_child_idx: Some(node_idx) });
                }
                self.frames.set(sp, Frame { node_idx, last_child_idx: None });
                sp = sp + 1;
                node_idx = node_idx + 1;
                proof {
                    reveal(begin_node);
                    let bs1 = begin_node(bs0, name_off as int, name_len as int);
                    assert(self.nodes@ =~= bs1.nodes);
                    assert(self.frames@ =~= bs1.frames);
                }
            } else if token == FDT_PROP {
                let len = read_be_u32_from_addr(&self.blob, cursor) as usize;
                let name_off = read_be_u32_from_addr(&self.blob, cursor + 4) as usize;
                cursor = cursor + 8;
                let name_len = match get_null_terminated_u8_slice(&self.blob, b.string_base + name_off, b.size_dt_strings - name_off) {
                    None => { return Err(FdtError::BadStructure); },
                    Some(n) => n,
                };
                proof {
                    crate::utils::lemma_nul_len_facts(s, b.string_base + name_off, strings_end(*b));
                }
                let value_off = cursor;
                let x = cursor + len;
                let pad = (4 - x % 4) % 4;
                cursor = x + pad;
                let ghost bs0 = BuildState {
                    nodes: self.nodes@, props: self.props@, frames: self.frames@, root: self.root as int,
                    node_idx: node_idx as int, prop_idx: prop_idx as int, sp: sp as int,
                };
                proof {
                    st = WalkState { cursor: cursor as int, props: st.props + 1, ..st };
                    lemma_walk_bounds(s, *b, st);
                }
                let cur = self.frames[sp - 1].node_idx;
                let nd = self.nodes[cur];
                let nd1 = if nd.prop_count == 0 { Node { first_prop_idx: Some(prop_idx), ..nd } } else { nd };
                self.nodes.set(cur, Node { prop_count: nd1.prop_count + 1, ..nd1 });
                let prop = Property { name_off: b.string_base + name_off, name_len, value_off, value_len: len };
                self.props.set(prop_idx, prop);
                prop_idx = prop_idx + 1;
                proof {
                    lemma_add_prop_links(bs0, prop);
                    let bs1 = add_prop(bs0, prop);
                    assert(self.nodes@ =~= bs1.nodes);
                    assert(self.props@ =~= bs1.props);
                }
            } else if token == FDT_NODE_END {
                proof {
                    lemma_links_end(link_view(self.nodes@), self.frames@, sp as int, node_idx as int);
                }
                sp = sp - 1;
                proof {
                    st = WalkState {
                        cursor: cursor as int,
                        depth: st.depth - 1,
                        has_child: st.has_child.remove(st.depth),
                        ..st
                    };
                }
            } else if token == FDT_NOP {
                proof {
                    st = WalkState { cursor: cursor as int, ..st };
                }
            } else if token == FDT_END {
                seen_end = true;
                proof {
                    assert(cursor - 4 == tok_at);
                }
                break;
            } else {
                return Err(FdtError::BadStructure);
            }
        }

        let ghost rsv_total = rsv_count(s, *b, b.rsvmap_base as int, 0)->Ok_0;
        proof {
            lemma_rsv_bounds(s, *b, b.rsvmap_base as int, 0);
        }
        let ghost tables = (self.nodes@, self.props@, self.frames@, self.root);
        let mut cursor = b.rsvmap_base;
        let mut i = 0usize;
        let n_reserved = self.reserved.len();
        while i < n_reserved
            invariant
                blocks_within(*b, s.len() as int),
                s == self.blob@,
                n_reserved == self.reserved@.len(),
                tables == (self.nodes@, self.props@, self.frames@, self.root),
                self.blob == old(self).blob,
                self.total_size == old(self).total_size,
                self.used == old(self).used,
                n_reserved == c.reserved,
                c.reserved == rsv_total,
                b.rsvmap_base as int + 16 * rsv_total + 16 < b.end,
                cursor == b.rsvmap_base + 16 * i,
                i <= n_reserved,
                forall|k: int| 0 <= k < i ==> #[trigger] self.reserved@[k] == (Resource {
                    base: be_u64(s, b.rsvmap_base + 16 * k) as u64,
                    size: be_u64(s, b.rsvmap_base + 16 * k + 8) as u64,
                }),
            decreases n_reserved - i,
        {
            let base = read_be_u64_from_addr(&self.blob, cursor);
            let size = read_be_u64_from_addr(&self.blob, cursor + 8);
            self.reserved.set(i, Resource { base, size });
            cursor = cursor + 16;
            i = i + 1;
        }
        proof {
            assert(links_in_range(link_view(self.nodes@)));
            lemma_links_tree(self, sp as int, node_idx as int);
        }
        Ok(())
    }
}


/// The tables the building pass starts from, freshly sized by `c`.
pub open spec fn fresh_build(c: Counts) -> BuildState {
    BuildState {
        nodes: Seq::new(c.nodes as nat, |i: int| empty_node()),
        props: Seq::new(c.props as nat, |i: int| empty_prop()),
        frames: Seq::new(c.max_depth as nat, |i: int| empty_frame()),
        root: 0,
        node_idx: 0,
        prop_idx: 0,
        sp: 0,
    }
}

/// `f` is the device tree parsed from the blob `s`, whose header and
/// structure were accepted with counts `c`.
pub open spec fn parsed_from(f: &Fdt, s: Seq<u8>, c: Counts) -> bool {
    let b = header_blocks(s);
    let t = build(s, b, b.struct_base as int, fresh_build(c));
    &&& f.blob@ == s
    &&& f.total_size == hdr_total_size(s)
    &&& f.used == arena_plan(0, c)->Some_0
    &&& f.nodes@ == t.nodes
    &&& f.props@ == t.props
    &&& f.frames@ == t.frames
    &&& f.root == t.root
    &&& f.reserved@.len() == c.reserved
    &&& reserved_filled(s, b, f.reserved@)
}

/// Parses the DTB into an arena. `None` stands for a missing blob. Fails
/// when the header or the structure is invalid or the arena is too small.
pub fn probe(dtb: Option<&[u8]>) -> (r: Result<Fdt, FdtError>)
    ensures
        dtb is None ==> r == Err::<Fdt, FdtError>(FdtError::NoDtb),
        dtb matches Some(s) ==> {
            let b = header_blocks(s@);
            let c = count_spec(s@, b);
            &&& !header_valid(s@) ==> r == Err::<Fdt, FdtError>(FdtError::BadHeader)
            &&& header_valid(s@) && c is Err ==> r == Err::<Fdt, FdtError>(FdtError::BadStructure)
            &&& header_valid(s@) && c is Ok && arena_plan(0, c->Ok_0) is None
                ==> r == Err::<Fdt, FdtError>(FdtError::ArenaFull)
            &&& header_valid(s@) && c is Ok && arena_plan(0, c->Ok_0) is Some
                ==> (r matches Ok(f) && f.wf() && f.tree_linked() && f.in_document_order() && parsed_from(&f, s@, c->Ok_0))
        },
{
    let blocks = parse_header(dtb)?;
    let s = match dtb {
        Some(s) => s,
        None => { return Err(FdtError::NoDtb); },
    };
    let counts = match count(s, &blocks) {
        Ok(c) => c,
        Err(e) => { return Err(e); },
    };
    let total_size = read_be_u32_from_addr(s, 4);
    let mut fdt = Fdt::new(vstd::slice::slice_to_vec(s), total_size);
    match fdt.init_arena(&counts) {
        Ok(()) => {},
        Err(e) => { return Err(e); },
    }
    match fdt.parse_dt(&blocks) {
        Ok(()) => {},
        Err(e) => { return Err(e); },
    }
    Ok(fdt)
}

} // verus!
