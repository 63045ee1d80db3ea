//! Queries over a parsed device tree: properties by name, cell sizes,
//! `reg` resources, phandles and interrupt routing.
use vstd::prelude::*;
use crate::fdt::{Fdt, Node, Property, Resource, node_wf, prop_wf};
use crate::utils::{
    first_index, lemma_first_index_is, lemma_first_index_none, be_u32, be_u64, bytes_eq, nul_list_contains, nul_list_has, read_be_u32_from_addr,
    read_be_u32_from_bytes, read_be_u64_from_addr,
};

verus! {

// ---------------------------------------------------------------- names

/// The bytes of `compatible`.
pub open spec fn name_compatible() -> Seq<u8> {
    seq![99u8, 111u8, 109u8, 112u8, 97u8, 116u8, 105u8, 98u8, 108u8, 101u8]
}

/// The bytes of `reg`.
pub open spec fn name_reg() -> Seq<u8> {
    seq![114u8, 101u8, 103u8]
}

/// The bytes of `#size-cells`.
pub open spec fn name_size_cells() -> Seq<u8> {
    seq![35u8, 115u8, 105u8, 122u8, 101u8, 45u8, 99u8, 101u8, 108u8, 108u8, 115u8]
}

/// The bytes of `#address-cells`.
pub open spec fn name_address_cells() -> Seq<u8> {
    seq![35u8, 97u8, 100u8, 100u8, 114u8, 101u8, 115u8, 115u8, 45u8, 99u8, 101u8, 108u8, 108u8, 115u8]
}

/// The bytes of `phandle`.
pub open spec fn name_phandle() -> Seq<u8> {
    seq![112u8, 104u8, 97u8, 110u8, 100u8, 108u8, 101u8]
}

/// The bytes of `linux,phandle`.
pub open spec fn name_linux_phandle() -> Seq<u8> {
    seq![108u8, 105u8, 110u8, 117u8, 120u8, 44u8, 112u8, 104u8, 97u8, 110u8, 100u8, 108u8, 101u8]
}

/// The bytes of `#interrupt-cells`.
pub open spec fn name_interrupt_cells() -> Seq<u8> {
    seq![35u8, 105u8, 110u8, 116u8, 101u8, 114u8, 114u8, 117u8, 112u8, 116u8, 45u8, 99u8, 101u8, 108u8, 108u8, 115u8]
}

/// The bytes of `interrupts-extended`.
pub open spec fn name_interrupts_extended() -> Seq<u8> {
    seq![105u8, 110u8, 116u8, 101u8, 114u8, 114u8, 117u8, 112u8, 116u8, 115u8, 45u8, 101u8, 120u8, 116u8, 101u8, 110u8, 100u8, 101u8, 100u8]
}

/// The bytes of `interrupts`.
pub open spec fn name_interrupts() -> Seq<u8> {
    seq![105u8, 110u8, 116u8, 101u8, 114u8, 114u8, 117u8, 112u8, 116u8, 115u8]
}

/// The bytes of `interrupt-parent`.
pub open spec fn name_interrupt_parent() -> Seq<u8> {
    seq![105u8, 110u8, 116u8, 101u8, 114u8, 114u8, 117u8, 112u8, 116u8, 45u8, 112u8, 97u8, 114u8, 101u8, 110u8, 116u8]
}

/// The bytes of `interrupt-controller`.
pub open spec fn name_interrupt_controller() -> Seq<u8> {
    seq![105u8, 110u8, 116u8, 101u8, 114u8, 114u8, 117u8, 112u8, 116u8, 45u8, 99u8, 111u8, 110u8, 116u8, 114u8, 111u8, 108u8, 108u8, 101u8, 114u8]
}

// ---------------------------------------------------------------- properties

/// The bytes of the blob in `[off, off + len)`.
pub open spec fn blob_bytes(f: &Fdt, off: int, len: int) -> Seq<u8> {
    f.blob@.subrange(off, off + len)
}

pub open spec fn prop_name(f: &Fdt, p: Property) -> Seq<u8> {
    blob_bytes(f, p.name_off as int, p.name_len as int)
}

pub open spec fn prop_value(f: &Fdt, p: Property) -> Seq<u8> {
    blob_bytes(f, p.value_off as int, p.value_len as int)
}

/// The properties of node `i`: empty when `i` is out of range, the node has
/// none, or its range does not fit the property table.
pub open spec fn node_props(f: &Fdt, i: int) -> Seq<Property> {
    if 0 <= i < f.nodes@.len() {
        match f.nodes@[i].first_prop_idx {
            None => Seq::empty(),
            Some(st) => {
                let end = st + f.nodes@[i].prop_count;
                if end <= f.props@.len() { f.props@.subrange(st as int, end) } else { Seq::empty() }
            },
        }
    } else {
        Seq::empty()
    }
}

/// Position in `ps`, from `k` on, of the first property named `name`.
pub open spec fn first_named(f: &Fdt, ps: Seq<Property>, name: Seq<u8>, k: int) -> Option<int>
    decreases ps.len() - k,
{
    if k < 0 || k >= ps.len() {
        None
    } else if prop_name(f, ps[k]) == name {
        Some(k)
    } else {
        first_named(f, ps, name, k + 1)
    }
}

/// The value of the first property of node `i` named `name`.
pub open spec fn prop_value_by_name(f: &Fdt, i: int, name: Seq<u8>) -> Option<Seq<u8>> {
    match first_named(f, node_props(f, i), name, 0) {
        Some(k) => Some(prop_value(f, node_props(f, i)[k])),
        None => None,
    }
}

/// The value of the property of node `i` named `name`, when it is exactly
/// one big-endian 32-bit cell.
pub open spec fn u32_prop(f: &Fdt, i: int, name: Seq<u8>) -> Option<u32> {
    match prop_value_by_name(f, i, name) {
        Some(v) => if v.len() == 4 { Some(be_u32(v, 0) as u32) } else { None },
        None => None,
    }
}

pub open spec fn parent_of(f: &Fdt, i: int) -> Option<usize> {
    if 0 <= i < f.nodes@.len() { f.nodes@[i].paren_idx } else { None }
}

/// A match found by `first_named` lies inside the list.
pub proof fn lemma_first_named_range(f: &Fdt, ps: Seq<Property>, name: Seq<u8>, k: int)
    ensures
        first_named(f, ps, name, k) matches Some(j) ==> k <= j < ps.len(),
    decreases ps.len() - k,
{
    if 0 <= k < ps.len() && prop_name(f, ps[k]) != name {
        lemma_first_named_range(f, ps, name, k + 1);
    }
}

/// A property value of a well-formed tree is no longer than the blob.
pub proof fn lemma_prop_value_within(f: &Fdt, i: int, name: Seq<u8>)
    requires
        f.wf(),
    ensures
        prop_value_by_name(f, i, name) matches Some(v) ==> v.len() <= f.blob@.len(),
{
    let ps = node_props(f, i);
    lemma_first_named_range(f, ps, name, 0);
    if let Some(k) = first_named(f, ps, name, 0) {
        let n = f.nodes@[i];
        assert(node_wf(f.nodes@, f.props@.len() as int, f.blob@.len() as int, i));
        let j = n.first_prop_idx->Some_0 + k;
        assert(ps[k] == f.props@[j]);
        assert(prop_wf(f.props@[j], f.blob@.len() as int));
    }
}

/// Returns the node table.
pub fn nodes(fdt: &Fdt) -> (r: &[Node])
    ensures
        r@ == fdt.nodes@,
{
    fdt.nodes.as_slice()
}

/// Returns a node by index. `None` when the index is out of range.
pub fn get_node_from_arena_by_idx(fdt: &Fdt, node_idx: usize) -> (r: Option<&Node>)
    ensures
        node_idx < fdt.nodes@.len() ==> r == Some(&fdt.nodes@[node_idx as int]),
        node_idx >= fdt.nodes@.len() ==> r is None,
{
    if node_idx < fdt.nodes.len() {
        Some(&fdt.nodes[node_idx])
    } else {
        None
    }
}

/// Returns the parent node index.
pub fn get_parent_by_node_idx(fdt: &Fdt, node_idx: usize) -> (r: Option<usize>)
    ensures
        r == parent_of(fdt, node_idx as int),
{
    match get_node_from_arena_by_idx(fdt, node_idx) {
        Some(n) => n.paren_idx,
        None => None,
    }
}

/// Returns the property slice of a node. Empty when the node index is out
/// of range or the node has no property.
pub fn get_node_props(fdt: &Fdt, node_idx: usize) -> (r: &[Property])
    ensures
        r@ == node_props(fdt, node_idx as int),
{
    let n = match get_node_from_arena_by_idx(fdt, node_idx) {
        Some(n) => n,
        None => { return &[]; },
    };
    let start = match n.first_prop_idx {
        Some(s) => s,
        None => { return &[]; },
    };
    if start > fdt.props.len() || (n.prop_count as usize) > fdt.props.len() - start {
        return &[];
    }
    let end = start + n.prop_count as usize;
    &fdt.props.as_slice()[start..end]
}

/// Returns the raw bytes of a named property of a node.
pub fn get_node_prop_value_by_name<'a>(fdt: &'a Fdt, node_idx: usize, name: &[u8]) -> (r: Option<&'a [u8]>)
    requires
        fdt.wf(),
    ensures
        r matches Some(v) ==> prop_value_by_name(fdt, node_idx as int, name@) == Some(v@),
        r is None ==> prop_value_by_name(fdt, node_idx as int, name@) is None,
{
    let props = get_node_props(fdt, node_idx);
    let ghost ps = node_props(fdt, node_idx as int);
    let mut k = 0usize;
    while k < props.len()
        invariant
            fdt.wf(),
            props@ == ps,
            ps == node_props(fdt, node_idx as int),
            k <= props@.len(),
            first_named(fdt, ps, name@, 0) == first_named(fdt, ps, name@, k as int),
        decreases props@.len() - k,
    {
        let p = props[k];
        proof {
            let n = fdt.nodes@[node_idx as int];
            assert(node_wf(fdt.nodes@, fdt.props@.len() as int, fdt.blob@.len() as int, node_idx as int));
            let j = n.first_prop_idx->Some_0 + k;
            assert(ps[k as int] == fdt.props@[j]);
            assert(prop_wf(fdt.props@[j], fdt.blob@.len() as int));
            assert(fdt.blob@.len() == fdt.blob.len());
        }
        if bytes_eq(fdt.blob.as_slice(), p.name_off, p.name_len, name) {
            return Some(&fdt.blob.as_slice()[p.value_off..p.value_off + p.value_len]);
        }
        k = k + 1;
    }
    None
}

/// Returns the u32 value of a named property of a node. `None` when the
/// property is absent or its length is not 4 bytes.
pub fn find_node_u32_sized_prop_by_name(fdt: &Fdt, node_idx: usize, name: &[u8]) -> (r: Option<u32>)
    requires
        fdt.wf(),
    ensures
        r == u32_prop(fdt, node_idx as int, name@),
{
    let v = match get_node_prop_value_by_name(fdt, node_idx, name) {
        Some(v) => v,
        None => { return None; },
    };
    if v.len() != 4 {
        return None;
    }
    Some(read_be_u32_from_addr(v, 0))
}


// ---------------------------------------------------------------- inherited cell sizes

/// Walking up from node `p` (itself included), the first node with a
/// one-cell property `name` gives its value.
pub open spec fn ancestor_u32_prop(f: &Fdt, p: int, name: Seq<u8>) -> Option<u32>
    decreases p,
{
    if p < 0 || p >= f.nodes@.len() {
        None
    } else {
        match u32_prop(f, p, name) {
            Some(v) => Some(v),
            None => match f.nodes@[p].paren_idx {
                Some(q) => if q < p { ancestor_u32_prop(f, q as int, name) } else { None },
                None => None,
            },
        }
    }
}

/// The one-cell property `name` of the nearest ancestor of node `i` that
/// has it, or `default`.
pub open spec fn parent_prop_value(f: &Fdt, i: int, name: Seq<u8>, default: usize) -> usize {
    match parent_of(f, i) {
        None => default,
        Some(p) => match ancestor_u32_prop(f, p as int, name) {
            Some(v) => v as usize,
            None => default,
        },
    }
}

/// Returns the one-cell property `name` of the nearest ancestor of a node
/// that has it, or `default` when none does.
pub fn get_parent_prop_by_name(fdt: &Fdt, node_idx: usize, name: &[u8], default: usize) -> (r: usize)
    requires
        fdt.wf(),
    ensures
        r == parent_prop_value(fdt, node_idx as int, name@, default),
{
    let mut parent = get_parent_by_node_idx(fdt, node_idx);
    proof {
        if node_idx < fdt.nodes@.len() {
            assert(node_wf(fdt.nodes@, fdt.props@.len() as int, fdt.blob@.len() as int, node_idx as int));
        }
    }
    loop
        invariant
            fdt.wf(),
            parent_prop_value(fdt, node_idx as int, name@, default) == (match parent {
                None => default,
                Some(p) => match ancestor_u32_prop(fdt, p as int, name@) {
                    Some(v) => v as usize,
                    None => default,
                },
            }),
        decreases (match parent { Some(p) => p + 1, None => 0 }),
    {
        match parent {
            None => { return default; },
            Some(p) => {
                if let Some(v) = find_node_u32_sized_prop_by_name(fdt, p, name) {
                    return v as usize;
                }
                proof {
                    if p < fdt.nodes@.len() {
                        assert(node_wf(fdt.nodes@, fdt.props@.len() as int, fdt.blob@.len() as int, p as int));
                    }
                }
                parent = get_parent_by_node_idx(fdt, p);
            },
        }
    }
}

/// Returns the #size-cells of the nearest ancestor, 1 when unset.
pub fn size_cells(fdt: &Fdt, node_idx: usize) -> (r: usize)
    requires
        fdt.wf(),
    ensures
        r == parent_prop_value(fdt, node_idx as int, name_size_cells(), 1),
{
    let name: [u8; 11] = [35, 115, 105, 122, 101, 45, 99, 101, 108, 108, 115];
    get_parent_prop_by_name(fdt, node_idx, &name, 1)
}

/// Returns the #address-cells of the nearest ancestor, 2 when unset.
pub fn address_cells(fdt: &Fdt, node_idx: usize) -> (r: usize)
    requires
        fdt.wf(),
    ensures
        r == parent_prop_value(fdt, node_idx as int, name_address_cells(), 2),
{
    let name: [u8; 14] = [35, 97, 100, 100, 114, 101, 115, 115, 45, 99, 101, 108, 108, 115];
    get_parent_prop_by_name(fdt, node_idx, &name, 2)
}

// ---------------------------------------------------------------- reg resources

/// The number that one or two big-endian cells encode.
pub open spec fn decode_cells_spec(c: Seq<u8>) -> Option<u64> {
    if c.len() == 4 {
        Some(be_u32(c, 0) as u64)
    } else if c.len() == 8 {
        Some(be_u64(c, 0) as u64)
    } else {
        None
    }
}

/// Decodes a number of one or two cells. `None` for any other width.
pub fn decode_cells(cells: &[u8]) -> (r: Option<u64>)
    ensures
        r == decode_cells_spec(cells@),
{
    if cells.len() == 4 {
        Some(read_be_u32_from_addr(cells, 0) as u64)
    } else if cells.len() == 8 {
        let hi = read_be_u32_from_addr(cells, 0) as u64;
        let lo = read_be_u32_from_addr(cells, 4) as u64;
        let r = (hi << 32u64) | lo;
        assert(r == hi * 0x1_0000_0000 + lo) by (bit_vector)
            requires
                r == (hi << 32u64) | lo,
                hi < 0x1_0000_0000,
                lo < 0x1_0000_0000,
        ;
        Some(r)
    } else {
        None
    }
}

/// The entry `r` of node `i`'s `reg` property: `#address-cells` cells of
/// base then `#size-cells` cells of size, both counts taken from the
/// nearest ancestor that sets them.
pub open spec fn resource_spec(f: &Fdt, i: int, r: int) -> Option<Resource> {
    match prop_value_by_name(f, i, name_reg()) {
        None => None,
        Some(v) => {
            let ac = parent_prop_value(f, i, name_address_cells(), 2) as int;
            let sc = parent_prop_value(f, i, name_size_cells(), 1) as int;
            let w = (ac + sc) * 4;
            let off = r * w;
            if w == 0 || off + w > v.len() {
                None
            } else {
                match decode_cells_spec(v.subrange(off, off + ac * 4)) {
                    None => None,
                    Some(base) => if sc == 0 {
                        Some(Resource { base, size: 0 })
                    } else {
                        match decode_cells_spec(v.subrange(off + ac * 4, off + w)) {
                            None => None,
                            Some(size) => Some(Resource { base, size }),
                        }
                    },
                }
            }
        },
    }
}

/// The big-endian number held in `n` cells (one or two) at byte `off`.
pub open spec fn cells_at(v: Seq<u8>, off: int, n: int) -> int {
    if n == 1 { be_u32(v, off) } else { be_u32(v, off) * 0x1_0000_0000 + be_u32(v, off + 4) }
}

/// Entries of a `reg` property are consecutive chunks of `#address-cells`
/// plus `#size-cells` cells: with one or two address cells and at most two
/// size cells, entry `r` exists exactly when its chunk, starting at byte
/// `r * (ac + sc) * 4`, lies in the value, and then its base is the number
/// held by the chunk's first `ac` cells and its size (0 for no size cells)
/// the number held by the rest.
pub proof fn law_resource_entry(f: &Fdt, i: int, r: int)
    requires
        r >= 0,
        prop_value_by_name(f, i, name_reg()) is Some,
    ensures
        ({
            let v = prop_value_by_name(f, i, name_reg())->Some_0;
            let ac = parent_prop_value(f, i, name_address_cells(), 2) as int;
            let sc = parent_prop_value(f, i, name_size_cells(), 1) as int;
            let w = (ac + sc) * 4;
            (ac == 1 || ac == 2) && 0 <= sc <= 2 ==> {
                &&& (r + 1) * w <= v.len() ==> resource_spec(f, i, r) == Some(Resource {
                    base: cells_at(v, r * w, ac) as u64,
                    size: (if sc == 0 { 0 } else { cells_at(v, r * w + ac * 4, sc) }) as u64,
                })
                &&& (r + 1) * w > v.len() ==> resource_spec(f, i, r) is None
            }
        }),
{
    let v = prop_value_by_name(f, i, name_reg())->Some_0;
    let ac = parent_prop_value(f, i, name_address_cells(), 2) as int;
    let sc = parent_prop_value(f, i, name_size_cells(), 1) as int;
    let w = (ac + sc) * 4;
    let off = r * w;
    assert((r + 1) * w == off + w) by (nonlinear_arith)
        requires off == r * w;
    if (ac == 1 || ac == 2) && 0 <= sc <= 2 && off + w <= v.len() {
        assert(off >= 0) by (nonlinear_arith)
            requires off == r * w, r >= 0, w >= 0;
        let c1 = v.subrange(off, off + ac * 4);
        assert forall|k: int| 0 <= k < ac * 4 implies c1[k] == v[off + k] by {}
        if sc > 0 {
            let c2 = v.subrange(off + ac * 4, off + w);
            assert forall|k: int| 0 <= k < sc * 4 implies c2[k] == v[off + ac * 4 + k] by {}
        }
    }
}

/// A `reg` entry that exists has an index below the blob's length.
pub proof fn lemma_resource_idx_bound(f: &Fdt, i: int, r: int)
    requires
        f.wf(),
        r >= 0,
        resource_spec(f, i, r) is Some,
    ensures
        r < f.blob@.len(),
{
    lemma_prop_value_within(f, i, name_reg());
    let v = prop_value_by_name(f, i, name_reg())->Some_0;
    let ac = parent_prop_value(f, i, name_address_cells(), 2) as int;
    let sc = parent_prop_value(f, i, name_size_cells(), 1) as int;
    let w = (ac + sc) * 4;
    assert(r * w + w > r) by (nonlinear_arith)
        requires
            w >= 1,
            r >= 0,
    ;
}

/// Returns the resource at the given position from a node's reg property.
/// The cell counts come from the nearest ancestor with #address-cells and
/// #size-cells.
pub fn get_resource(fdt: &Fdt, node_idx: usize, resource_idx: usize) -> (r: Option<Resource>)
    requires
        fdt.wf(),
    ensures
        r == resource_spec(fdt, node_idx as int, resource_idx as int),
{
    let name: [u8; 3] = [114, 101, 103];
    let resource = match get_node_prop_value_by_name(fdt, node_idx, &name) {
        Some(v) => v,
        None => { return None; },
    };
    let ac = address_cells(fdt, node_idx);
    let sc = size_cells(fdt, node_idx);
    proof {
        assert(resource@.len() == resource.len());
    }
    let width_bytes = match ac.checked_add(sc) {
        Some(t) => match t.checked_mul(4) {
            Some(w) => w,
            None => {
                proof { assert(resource_idx as int * ((ac + sc) * 4) >= 0) by (nonlinear_arith)
                    requires resource_idx >= 0, ac + sc >= 0; }
                return None;
            },
        },
        None => {
            proof { assert(resource_idx as int * ((ac + sc) * 4) >= 0) by (nonlinear_arith)
                requires resource_idx >= 0, ac + sc >= 0; }
            return None;
        },
    };
    if width_bytes == 0 {
        return None;
    }
    let off = match resource_idx.checked_mul(width_bytes) {
        Some(o) => o,
        None => { return None; },
    };
    let end = match off.checked_add(width_bytes) {
        Some(e) => e,
        None => { return None; },
    };
    if end > resource.len() {
        return None;
    }
    let base = match decode_cells(&resource[off..off + ac * 4]) {
        Some(b) => b,
        None => { return None; },
    };
    let size = if sc == 0 {
        0
    } else {
        match decode_cells(&resource[off + ac * 4..end]) {
            Some(s) => s,
            None => { return None; },
        }
    };
    Some(Resource { base, size })
}


// ---------------------------------------------------------------- phandles and compatibility

/// The phandle of node `i`, from `phandle` or else the legacy `linux,phandle`.
pub open spec fn phandle_of(f: &Fdt, i: int) -> Option<u32> {
    match u32_prop(f, i, name_phandle()) {
        Some(v) => Some(v),
        None => u32_prop(f, i, name_linux_phandle()),
    }
}

/// The first node whose phandle is `value`.
pub open spec fn phandle_node(f: &Fdt, value: u32) -> Option<int> {
    first_index(f.nodes@.len() as int, |j: int| phandle_of(f, j) == Some(value))
}

/// Node `i` has a `compatible` property that lists `s`.
pub open spec fn compatible_spec(f: &Fdt, i: int, s: Seq<u8>) -> bool {
    match prop_value_by_name(f, i, name_compatible()) {
        Some(v) => nul_list_has(v, 0, s),
        None => false,
    }
}

/// Node `i` has a property `name` whose value lists `val`.
pub open spec fn prop_lists(f: &Fdt, i: int, name: Seq<u8>, val: Seq<u8>) -> bool {
    match prop_value_by_name(f, i, name) {
        Some(v) => nul_list_has(v, 0, val),
        None => false,
    }
}

/// Returns the phandle of a node. Accepts the legacy `linux,phandle`.
pub fn get_node_phandle_prop_by_idx(fdt: &Fdt, node_idx: usize) -> (r: Option<u32>)
    requires
        fdt.wf(),
    ensures
        r == phandle_of(fdt, node_idx as int),
{
    let name: [u8; 7] = [112, 104, 97, 110, 100, 108, 101];
    match find_node_u32_sized_prop_by_name(fdt, node_idx, &name) {
        Some(v) => Some(v),
        None => {
            let legacy: [u8; 13] = [108, 105, 110, 117, 120, 44, 112, 104, 97, 110, 100, 108, 101];
            find_node_u32_sized_prop_by_name(fdt, node_idx, &legacy)
        },
    }
}

/// Returns the index of the node that holds the given phandle.
pub fn find_node_by_phandle_prop(fdt: &Fdt, value: u32) -> (r: Option<usize>)
    requires
        fdt.wf(),
    ensures
        r matches Some(i) ==> phandle_node(fdt, value) == Some(i as int),
        r is None ==> phandle_node(fdt, value) is None,
{
    let ghost pred = |j: int| phandle_of(fdt, j) == Some(value);
    let n = fdt.nodes.len();
    let mut i = 0usize;
    while i < n
        invariant
            fdt.wf(),
            n == fdt.nodes@.len(),
            i <= n,
            pred == (|j: int| phandle_of(fdt, j) == Some(value)),
            forall|k: int| 0 <= k < i ==> !#[trigger] pred(k),
        decreases n - i,
    {
        match get_node_phandle_prop_by_idx(fdt, i) {
            Some(v) => {
                if v == value {
                    proof {
                        lemma_first_index_is(n as int, pred, i as int);
                    }
                    return Some(i);
                }
            },
            None => {},
        }
        i = i + 1;
    }
    proof {
        lemma_first_index_none(n as int, pred);
    }
    None
}

/// Returns true when the compatible property of a node lists the given
/// string.
pub fn compatible_has(fdt: &Fdt, node_idx: usize, s: &[u8]) -> (r: bool)
    requires
        fdt.wf(),
    ensures
        r == compatible_spec(fdt, node_idx as int, s@),
{
    let name: [u8; 10] = [99, 111, 109, 112, 97, 116, 105, 98, 108, 101];
    match get_node_prop_value_by_name(fdt, node_idx, &name) {
        Some(v) => nul_list_contains(v, s),
        None => false,
    }
}

/// Returns the index of the first node whose compatible property lists the
/// given string.
pub fn find_compatible_node_idx(fdt: &Fdt, s: &[u8]) -> (r: Option<usize>)
    requires
        fdt.wf(),
    ensures
        r matches Some(i) ==> first_index(fdt.nodes@.len() as int, |j: int| compatible_spec(fdt, j, s@)) == Some(i as int),
        r is None ==> first_index(fdt.nodes@.len() as int, |j: int| compatible_spec(fdt, j, s@)) is None,
{
    let ghost pred = |j: int| compatible_spec(fdt, j, s@);
    let n = fdt.nodes.len();
    let mut i = 0usize;
    while i < n
        invariant
            fdt.wf(),
            n == fdt.nodes@.len(),
            i <= n,
            pred == (|j: int| compatible_spec(fdt, j, s@)),
            forall|k: int| 0 <= k < i ==> !#[trigger] pred(k),
        decreases n - i,
    {
        if compatible_has(fdt, i, s) {
            proof {
                lemma_first_index_is(n as int, pred, i as int);
            }
            return Some(i);
        }
        i = i + 1;
    }
    proof {
        lemma_first_index_none(n as int, pred);
    }
    None
}

/// Returns the index of the first node whose property `prop_name` lists
/// `prop_val` among its NUL-separated strings.
pub fn get_node_idx_by_prop_name_and_val(fdt: &Fdt, prop_name: &[u8], prop_val: &[u8]) -> (r: Option<usize>)
    requires
        fdt.wf(),
    ensures
        r matches Some(i) ==> first_index(fdt.nodes@.len() as int, |j: int| prop_lists(fdt, j, prop_name@, prop_val@)) == Some(i as int),
        r is None ==> first_index(fdt.nodes@.len() as int, |j: int| prop_lists(fdt, j, prop_name@, prop_val@)) is None,
{
    let ghost pred = |j: int| prop_lists(fdt, j, prop_name@, prop_val@);
    let n = fdt.nodes.len();
    let mut i = 0usize;
    while i < n
        invariant
            fdt.wf(),
            n == fdt.nodes@.len(),
            i <= n,
            pred == (|j: int| prop_lists(fdt, j, prop_name@, prop_val@)),
            forall|k: int| 0 <= k < i ==> !#[trigger] pred(k),
        decreases n - i,
    {
        let found = match get_node_prop_value_by_name(fdt, i, prop_name) {
            Some(v) => nul_list_contains(v, prop_val),
            None => false,
        };
        if found {
            proof {
                lemma_first_index_is(n as int, pred, i as int);
            }
            return Some(i);
        }
        i = i + 1;
    }
    proof {
        lemma_first_index_none(n as int, pred);
    }
    None
}

/// The total size the DTB header declares.
pub fn fdt_total_size(fdt: &Fdt) -> (r: u32)
    ensures
        r == fdt.total_size,
{
    fdt.total_size
}

/// The regions of the memory reservation map.
pub fn get_reserved(fdt: &Fdt) -> (r: &[Resource])
    ensures
        r@ == fdt.reserved@,
{
    fdt.reserved.as_slice()
}


// ---------------------------------------------------------------- interrupts

/// The `#interrupt-cells` of node `i`, 1 when unset; `None` when `i` is not
/// a node.
pub open spec fn interrupt_cells_spec(f: &Fdt, i: int) -> Option<usize> {
    if 0 <= i < f.nodes@.len() {
        Some(match u32_prop(f, i, name_interrupt_cells()) {
            Some(v) => v as usize,
            None => 1usize,
        })
    } else {
        None
    }
}

/// Returns the #interrupt-cells of a node, 1 when unset.
pub fn interrupt_cells(fdt: &Fdt, node_idx: usize) -> (r: Option<usize>)
    requires
        fdt.wf(),
    ensures
        r == interrupt_cells_spec(fdt, node_idx as int),
{
    get_node_from_arena_by_idx(fdt, node_idx)?;
    let name: [u8; 16] = [35, 105, 110, 116, 101, 114, 114, 117, 112, 116, 45, 99, 101, 108, 108, 115];
    Some(match find_node_u32_sized_prop_by_name(fdt, node_idx, &name) {
        Some(v) => v as usize,
        None => 1,
    })
}

/// Entry `k` (counting from the entry at byte `off`) of an
/// interrupts-extended value `v`: each entry is a phandle followed by as
/// many cells as the `#interrupt-cells` of the node it points to; the
/// result is the phandle and the first of those cells.
pub open spec fn ext_entry(f: &Fdt, v: Seq<u8>, off: int, k: nat) -> Option<(u32, u32)>
    decreases k,
{
    if off + 4 > v.len() {
        None
    } else {
        let ph = be_u32(v, off) as u32;
        match phandle_node(f, ph) {
            None => None,
            Some(ctrl) => match interrupt_cells_spec(f, ctrl) {
                None => None,
                Some(cells) => {
                    let end = off + 4 + cells * 4;
                    if end > v.len() {
                        None
                    } else if k == 0 {
                        if off + 8 > v.len() { None } else { Some((ph, be_u32(v, off + 4) as u32)) }
                    } else {
                        ext_entry(f, v, end, (k - 1) as nat)
                    }
                },
            },
        }
    }
}

/// Entry `index` of node `i`'s interrupts-extended property.
pub open spec fn interrupts_extended_spec(f: &Fdt, i: int, index: nat) -> Option<(u32, u32)> {
    match prop_value_by_name(f, i, name_interrupts_extended()) {
        Some(v) => ext_entry(f, v, 0, index),
        None => None,
    }
}

/// An entry found this way lies wholly inside the value: there are at
/// least `k + 1` entries of four bytes or more after `off`.
pub proof fn lemma_ext_entry_len(f: &Fdt, v: Seq<u8>, off: int, k: nat)
    requires
        ext_entry(f, v, off, k) is Some,
    ensures
        off + 4 * (k + 1) <= v.len(),
    decreases k,
{
    if k > 0 {
        let ph = be_u32(v, off) as u32;
        let ctrl = phandle_node(f, ph)->Some_0;
        let cells = interrupt_cells_spec(f, ctrl)->Some_0;
        lemma_ext_entry_len(f, v, off + 4 + cells * 4, (k - 1) as nat);
    }
}

/// Returns one entry of an interrupts-extended property as
/// `(phandle, args[0])`.
///
/// Each entry starts with a phandle, followed by the specifier cells of
/// the controller that the phandle points to. The specifier width is
/// that controller's #interrupt-cells. args[0] is the first specifier
/// cell.
///
/// None when the entry is absent, truncated, or the phandle is
/// dangling.
pub fn interrupts_extended(fdt: &Fdt, node_idx: usize, index: usize) -> (r: Option<(u32, u32)>)
    requires
        fdt.wf(),
    ensures
        r == interrupts_extended_spec(fdt, node_idx as int, index as nat),
{
    let name: [u8; 19] = [105, 110, 116, 101, 114, 114, 117, 112, 116, 115, 45, 101, 120, 116, 101, 110, 100, 101, 100];
    let v = match get_node_prop_value_by_name(fdt, node_idx, &name) {
        Some(v) => v,
        None => { return None; },
    };
    proof {
        assert(v@.len() == v.len());
    }
    let mut off = 0usize;
    let mut i = 0usize;
    loop
        invariant
            fdt.wf(),
            off <= v@.len(),
            i <= index,
            interrupts_extended_spec(fdt, node_idx as int, index as nat) == ext_entry(fdt, v@, off as int, (index - i) as nat),
        decreases index - i,
    {
        let ph = match read_be_u32_from_bytes(&v[off..v.len()]) {
            Some(p) => p,
            None => { return None; },
        };
        proof {
            assert(be_u32(v@.subrange(off as int, v@.len() as int), 0) == be_u32(v@, off as int));
        }
        let ctrl = match find_node_by_phandle_prop(fdt, ph) {
            Some(c) => c,
            None => { return None; },
        };
        let cells = match interrupt_cells(fdt, ctrl) {
            Some(c) => c,
            None => { return None; },
        };
        let width = match cells.checked_mul(4) {
            Some(w) => match w.checked_add(4) {
                Some(w4) => w4,
                None => { return None; },
            },
            None => { return None; },
        };
        let end = match off.checked_add(width) {
            Some(e) => e,
            None => { return None; },
        };
        if end > v.len() {
            return None;
        }
        if i == index {
            let arg = match read_be_u32_from_bytes(&v[off + 4..v.len()]) {
                Some(a) => a,
                None => { return None; },
            };
            proof {
                assert(be_u32(v@.subrange(off + 4, v@.len() as int), 0) == be_u32(v@, off + 4));
            }
            return Some((ph, arg));
        }
        off = end;
        i = i + 1;
    }
}

/// Walking up from node `p` (itself included), the first node that has a
/// property `name`.
pub open spec fn ancestor_with_prop(f: &Fdt, p: int, name: Seq<u8>) -> Option<int>
    decreases p,
{
    if p < 0 || p >= f.nodes@.len() {
        None
    } else if prop_value_by_name(f, p, name) is Some {
        Some(p)
    } else {
        match f.nodes@[p].paren_idx {
            Some(q) => if q < p { ancestor_with_prop(f, q as int, name) } else { None },
            None => None,
        }
    }
}

/// The interrupt controller of node `i`: the node its interrupt-parent
/// phandle names, or else its nearest proper ancestor that is an
/// interrupt-controller.
pub open spec fn interrupt_controller_spec(f: &Fdt, i: int) -> Option<int> {
    match u32_prop(f, i, name_interrupt_parent()) {
        Some(v) => phandle_node(f, v),
        None => match parent_of(f, i) {
            Some(p) => ancestor_with_prop(f, p as int, name_interrupt_controller()),
            None => None,
        },
    }
}

/// Finds the interrupt controller of a node: the node its interrupt-parent
/// names, or else its nearest ancestor with an interrupt-controller property.
pub fn find_interrupt_controller_amongst_parent_nodes(fdt: &Fdt, node_idx: usize) -> (r: Option<usize>)
    requires
        fdt.wf(),
    ensures
        r matches Some(c) ==> interrupt_controller_spec(fdt, node_idx as int) == Some(c as int),
        r is None ==> interrupt_controller_spec(fdt, node_idx as int) is None,
{
    let parent_name: [u8; 16] = [105, 110, 116, 101, 114, 114, 117, 112, 116, 45, 112, 97, 114, 101, 110, 116];
    if let Some(value) = find_node_u32_sized_prop_by_name(fdt, node_idx, &parent_name) {
        return find_node_by_phandle_prop(fdt, value);
    }
    let ctrl_name: [u8; 20] = [105, 110, 116, 101, 114, 114, 117, 112, 116, 45, 99, 111, 110, 116, 114, 111, 108, 108, 101, 114];
    let mut cur = get_parent_by_node_idx(fdt, node_idx);
    proof {
        if node_idx < fdt.nodes@.len() {
            assert(node_wf(fdt.nodes@, fdt.props@.len() as int, fdt.blob@.len() as int, node_idx as int));
        }
    }
    loop
        invariant
            fdt.wf(),
            ctrl_name@ == name_interrupt_controller(),
            interrupt_controller_spec(fdt, node_idx as int) == (match cur {
                Some(p) => ancestor_with_prop(fdt, p as int, name_interrupt_controller()),
                None => None,
            }),
        decreases (match cur { Some(p) => p + 1, None => 0 }),
    {
        match cur {
            None => { return None; },
            Some(p) => {
                if get_node_prop_value_by_name(fdt, p, &ctrl_name).is_some() {
                    return Some(p);
                }
                proof {
                    if p < fdt.nodes@.len() {
                        assert(node_wf(fdt.nodes@, fdt.props@.len() as int, fdt.blob@.len() as int, p as int));
                    }
                }
                cur = get_parent_by_node_idx(fdt, p);
            },
        }
    }
}

/// Entry `k` of node `i`'s interrupts property, read with the
/// `#interrupt-cells` of its interrupt controller: the entry's first cell.
pub open spec fn node_interrupt_spec(f: &Fdt, i: int, k: int) -> Option<u32> {
    match interrupt_controller_spec(f, i) {
        None => None,
        Some(ctrl) => match interrupt_cells_spec(f, ctrl) {
            None => None,
            Some(cells) => if cells == 0 {
                None
            } else {
                match prop_value_by_name(f, i, name_interrupts()) {
                    None => None,
                    Some(v) => {
                        let off = k * (cells * 4);
                        if off + cells * 4 > v.len() { None } else { Some(be_u32(v, off) as u32) }
                    },
                }
            },
        },
    }
}

/// Returns args[0] of one entry of an interrupts property.
///
/// The controller is the interrupt-parent of the node, or the nearest
/// ancestor with an interrupt-controller property. The entry width is
/// the #interrupt-cells of that controller.
pub fn get_node_interrupt_by_idx(fdt: &Fdt, node_idx: usize, inter_idx: usize) -> (r: Option<u32>)
    requires
        fdt.wf(),
    ensures
        r == node_interrupt_spec(fdt, node_idx as int, inter_idx as int),
{
    let interrupt_controller = match find_interrupt_controller_amongst_parent_nodes(fdt, node_idx) {
        Some(c) => c,
        None => { return None; },
    };
    let cells = match interrupt_cells(fdt, interrupt_controller) {
        Some(c) => c,
        None => { return None; },
    };
    if cells == 0 {
        return None;
    }
    let name: [u8; 10] = [105, 110, 116, 101, 114, 114, 117, 112, 116, 115];
    let v = match get_node_prop_value_by_name(fdt, node_idx, &name) {
        Some(v) => v,
        None => { return None; },
    };
    proof {
        assert(v@.len() == v.len());
    }
    let width = match cells.checked_mul(4) {
        Some(w) => w,
        None => { return None; },
    };
    let off = match inter_idx.checked_mul(width) {
        Some(o) => o,
        None => {
            proof {
                assert(inter_idx as int * width as int >= 0) by (nonlinear_arith)
                    requires inter_idx >= 0, width >= 0;
            }
            return None;
        },
    };
    let end = match off.checked_add(width) {
        Some(e) => e,
        None => { return None; },
    };
    if end > v.len() {
        return None;
    }
    let r = read_be_u32_from_bytes(&v[off..v.len()]);
    proof {
        assert(be_u32(v@.subrange(off as int, v@.len() as int), 0) == be_u32(v@, off as int));
    }
    r
}

proof fn lemma_first_named_first(f: &Fdt, ps: Seq<Property>, name: Seq<u8>, k: int)
    requires
        0 <= k,
    ensures
        first_named(f, ps, name, k) matches Some(j) ==> k <= j < ps.len() && prop_name(f, ps[j]) == name
            && forall|m: int| k <= m < j ==> prop_name(f, #[trigger] ps[m]) != name,
        first_named(f, ps, name, k) is None ==> forall|m: int| k <= m < ps.len() ==> prop_name(f, #[trigger] ps[m]) != name,
    decreases ps.len() - k,
{
    if k < ps.len() && prop_name(f, ps[k]) != name {
        lemma_first_named_first(f, ps, name, k + 1);
    }
}

/// A lookup by name gives the value of the first of the node's properties
/// with that name, and nothing exactly when none has that name.
pub proof fn law_lookup_first_of_name(f: &Fdt, i: int, name: Seq<u8>)
    ensures
        ({
            let ps = node_props(f, i);
            &&& prop_value_by_name(f, i, name) is None <==> forall|m: int| 0 <= m < ps.len() ==> prop_name(f, #[trigger] ps[m]) != name
            &&& prop_value_by_name(f, i, name) matches Some(val) ==> exists|j: int| 0 <= j < ps.len()
                && prop_name(f, #[trigger] ps[j]) == name && prop_value(f, ps[j]) == val
                && forall|m: int| 0 <= m < j ==> prop_name(f, #[trigger] ps[m]) != name
        }),
{
    let ps = node_props(f, i);
    lemma_first_named_first(f, ps, name, 0);
    if let Some(j) = first_named(f, ps, name, 0) {
        assert(prop_name(f, ps[j]) == name);
    }
}

/// Interrupt `k` of a node is the first cell of the `k`-th chunk of
/// `#interrupt-cells` cells of its `interrupts` value, and there is one
/// exactly when that chunk lies in the value.
pub proof fn law_interrupt_entry(f: &Fdt, i: int, k: int)
    requires
        k >= 0,
        interrupt_controller_spec(f, i) matches Some(ctrl) && interrupt_cells_spec(f, ctrl) matches Some(c) && c > 0,
        prop_value_by_name(f, i, name_interrupts()) is Some,
    ensures
        ({
            let c = interrupt_cells_spec(f, interrupt_controller_spec(f, i)->Some_0)->Some_0 as int;
            let v = prop_value_by_name(f, i, name_interrupts())->Some_0;
            &&& (k + 1) * c * 4 <= v.len() ==> node_interrupt_spec(f, i, k) == Some(be_u32(v, k * c * 4) as u32)
            &&& (k + 1) * c * 4 > v.len() ==> node_interrupt_spec(f, i, k) is None
        }),
{
    let c = interrupt_cells_spec(f, interrupt_controller_spec(f, i)->Some_0)->Some_0 as int;
    assert(k * (c * 4) == k * c * 4 && (k + 1) * c * 4 == k * c * 4 + c * 4) by (nonlinear_arith);
}

/// Reading the interrupts-extended list `d` bytes in is reading the list
/// with its first `d` bytes dropped.
proof fn lemma_ext_entry_shift(f: &Fdt, v: Seq<u8>, d: int, off: int, k: nat)
    requires
        0 <= d <= v.len(),
        0 <= off,
    ensures
        ext_entry(f, v, d + off, k) == ext_entry(f, v.subrange(d, v.len() as int), off, k),
    decreases k,
{
    let u = v.subrange(d, v.len() as int);
    if d + off + 4 <= v.len() {
        assert(be_u32(v, d + off) == be_u32(u, off));
        let ph = be_u32(v, d + off) as u32;
        if let Some(ctrl) = phandle_node(f, ph) {
            if let Some(cells) = interrupt_cells_spec(f, ctrl) {
                let end = off + 4 + cells * 4;
                if d + end <= v.len() {
                    if k == 0 {
                        if d + off + 8 <= v.len() {
                            assert(be_u32(v, d + off + 4) == be_u32(u, off + 4));
                        }
                    } else {
                        lemma_ext_entry_shift(f, v, d, end, (k - 1) as nat);
                    }
                }
            }
        }
    }
}

/// An interrupts-extended list is a run of entries, each a phandle followed
/// by as many cells as that controller's `#interrupt-cells`: entry 0 is the
/// phandle and the first cell after it, and entry `k + 1` is entry `k` of
/// the list with the first entry dropped.
pub proof fn law_ext_entries(f: &Fdt, v: Seq<u8>, k: nat)
    requires
        v.len() >= 4,
        phandle_node(f, be_u32(v, 0) as u32) matches Some(ctrl) && interrupt_cells_spec(f, ctrl) matches Some(c)
            && 4 + c * 4 <= v.len(),
    ensures
        ({
            let c = interrupt_cells_spec(f, phandle_node(f, be_u32(v, 0) as u32)->Some_0)->Some_0 as int;
            &&& ext_entry(f, v, 0, 0) == (if v.len() >= 8 { Some((be_u32(v, 0) as u32, be_u32(v, 4) as u32)) } else { None })
            &&& ext_entry(f, v, 0, k + 1) == ext_entry(f, v.subrange(4 + c * 4, v.len() as int), 0, k)
        }),
{
    let c = interrupt_cells_spec(f, phandle_node(f, be_u32(v, 0) as u32)->Some_0)->Some_0 as int;
    lemma_ext_entry_shift(f, v, 4 + c * 4, 0, k);
    assert(ext_entry(f, v, 0, k + 1) == ext_entry(f, v, 4 + c * 4, k));
}

} // verus!
