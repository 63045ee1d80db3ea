use rvkernel::fdt::{count, fdt_error_code, parse_header, probe, Counts, Fdt, FdtError, Resource};
use rvkernel::fdt_query::{
    address_cells, compatible_has, decode_cells, fdt_total_size, find_compatible_node_idx,
    find_interrupt_controller_amongst_parent_nodes, find_node_by_phandle_prop, find_node_u32_sized_prop_by_name,
    get_node_from_arena_by_idx, get_node_idx_by_prop_name_and_val, get_node_interrupt_by_idx,
    get_node_phandle_prop_by_idx, get_node_prop_value_by_name, get_node_props, get_parent_by_node_idx,
    get_parent_prop_by_name, get_reserved, get_resource, interrupt_cells, interrupts_extended, nodes, size_cells,
};
use rvkernel::mm::{init as mm_init, MMError, Range, PAGE_SIZE};
use rvkernel::plic::{
    claim, complete, hart_id_of, init as plic_init, program, program_uart, s_mode_context, PLICError, RegWrite32,
};

/// Writes a flattened device tree: header, reservation map, structure block
/// and strings block.
struct Builder {
    structs: Vec<u8>,
    strings: Vec<u8>,
    rsv: Vec<(u64, u64)>,
}

fn be32(v: &mut Vec<u8>, x: u32) {
    v.extend_from_slice(&x.to_be_bytes());
}

fn pad4(v: &mut Vec<u8>) {
    while v.len() % 4 != 0 {
        v.push(0);
    }
}

fn cells(xs: &[u32]) -> Vec<u8> {
    let mut v = Vec::new();
    for x in xs {
        be32(&mut v, *x);
    }
    v
}

fn strs(xs: &[&str]) -> Vec<u8> {
    let mut v = Vec::new();
    for x in xs {
        v.extend_from_slice(x.as_bytes());
        v.push(0);
    }
    v
}

impl Builder {
    fn new() -> Self {
        Builder { structs: Vec::new(), strings: Vec::new(), rsv: Vec::new() }
    }

    fn token(&mut self, t: u32) {
        be32(&mut self.structs, t);
    }

    fn begin(&mut self, name: &str) {
        self.token(1);
        self.structs.extend_from_slice(name.as_bytes());
        self.structs.push(0);
        pad4(&mut self.structs);
    }

    fn end(&mut self) {
        self.token(2);
    }

    fn name_offset(&mut self, name: &str) -> u32 {
        let mut key = name.as_bytes().to_vec();
        key.push(0);
        let mut i = 0;
        while i < self.strings.len() {
            let mut j = i;
            while self.strings[j] != 0 {
                j += 1;
            }
            if self.strings[i..=j] == key[..] {
                return i as u32;
            }
            i = j + 1;
        }
        let off = self.strings.len() as u32;
        self.strings.extend_from_slice(&key);
        off
    }

    fn prop(&mut self, name: &str, value: &[u8]) {
        let off = self.name_offset(name);
        self.token(3);
        be32(&mut self.structs, value.len() as u32);
        be32(&mut self.structs, off);
        self.structs.extend_from_slice(value);
        pad4(&mut self.structs);
    }

    fn prop_u32(&mut self, name: &str, x: u32) {
        self.prop(name, &cells(&[x]));
    }

    fn finish_with(mut self, version: u32, with_end: bool) -> Vec<u8> {
        if with_end {
            self.token(9);
        }
        let rsv_off = 40u32;
        let struct_off = rsv_off + 16 * (self.rsv.len() as u32 + 1);
        let strings_off = struct_off + self.structs.len() as u32;
        let total = strings_off + self.strings.len() as u32;
        let mut out = Vec::new();
        for x in [0xd00d_feed, total, struct_off, strings_off, rsv_off, version, 16, 0] {
            be32(&mut out, x);
        }
        be32(&mut out, self.strings.len() as u32);
        be32(&mut out, self.structs.len() as u32);
        for (base, size) in &self.rsv {
            out.extend_from_slice(&base.to_be_bytes());
            out.extend_from_slice(&size.to_be_bytes());
        }
        out.extend_from_slice(&[0u8; 16]);
        out.extend_from_slice(&self.structs);
        out.extend_from_slice(&self.strings);
        out
    }

    fn finish(self) -> Vec<u8> {
        self.finish_with(17, true)
    }
}

// Node indices of the sample tree, in document order.
const ROOT: usize = 0;
const CPUS: usize = 1;
const CPU0: usize = 2;
const INTC0: usize = 3;
const CPU1: usize = 4;
const INTC1: usize = 5;
const MEMORY: usize = 6;
const SOC: usize = 7;
const PLIC: usize = 8;
const SERIAL: usize = 9;

/// A two-hart machine in the shape QEMU's `virt` board describes.
fn sample_blob() -> Vec<u8> {
    let mut b = Builder::new();
    b.rsv.push((0x8000_0000, 0x8_0000));
    b.begin("");
    b.prop_u32("#address-cells", 2);
    b.prop_u32("#size-cells", 2);
    b.prop("compatible", &strs(&["riscv-virtio"]));
    b.begin("cpus");
    b.prop_u32("#address-cells", 1);
    b.prop_u32("#size-cells", 0);
    for (hart, phandle) in [(0u32, 1u32), (1, 3)] {
        b.begin(&format!("cpu@{}", hart));
        b.prop("device_type", &strs(&["cpu"]));
        b.prop_u32("reg", hart);
        b.prop("compatible", &strs(&["riscv"]));
        b.begin("interrupt-controller");
        b.prop_u32("#interrupt-cells", 1);
        b.prop("interrupt-controller", &[]);
        b.prop("compatible", &strs(&["riscv,cpu-intc"]));
        b.prop_u32("phandle", phandle);
        b.end();
        b.end();
    }
    b.end();
    b.begin("memory@80000000");
    b.prop("device_type", &strs(&["memory"]));
    b.prop("reg", &cells(&[0, 0x8000_0000, 0, 0x800_0000]));
    b.end();
    b.begin("soc");
    b.prop_u32("#address-cells", 2);
    b.prop_u32("#size-cells", 2);
    b.begin("plic@c000000");
    b.prop("compatible", &strs(&["sifive,plic-1.0.0", "riscv,plic0"]));
    b.prop("reg", &cells(&[0, 0xc00_0000, 0, 0x60_0000]));
    b.prop("interrupts-extended", &cells(&[1, 11, 1, 9, 3, 11, 3, 9]));
    b.prop("interrupt-controller", &[]);
    b.prop_u32("#interrupt-cells", 1);
    b.prop_u32("phandle", 2);
    b.end();
    b.begin("serial@10000000");
    b.prop("compatible", &strs(&["ns16550a"]));
    b.prop("reg", &cells(&[0, 0x1000_0000, 0, 0x100]));
    b.prop_u32("interrupts", 10);
    b.prop_u32("interrupt-parent", 2);
    b.end();
    b.end();
    b.end();
    b.finish()
}

fn sample() -> Fdt {
    let blob = sample_blob();
    match probe(Some(&blob)) {
        Ok(f) => f,
        Err(e) => panic!("sample tree refused: {:?}", e),
    }
}

fn be32_at(v: &mut [u8], off: usize, x: u32) {
    v[off..off + 4].copy_from_slice(&x.to_be_bytes());
}

// ---------------------------------------------------------------- header

#[test]
fn missing_blob_is_no_dtb() {
    assert_eq!(parse_header(None), Err(FdtError::NoDtb));
    assert!(matches!(probe(None), Err(FdtError::NoDtb)));
}

#[test]
fn header_blocks_of_sample() {
    let blob = sample_blob();
    let b = parse_header(Some(&blob)).unwrap();
    assert_eq!(b.rsvmap_base, 40);
    assert_eq!(b.struct_base, 72);
    assert_eq!(b.end, blob.len());
    assert_eq!(b.string_base, 72 + b.size_dt_struct);
    assert_eq!(b.string_base + b.size_dt_strings, blob.len());
}

#[test]
fn header_errors() {
    let good = sample_blob();
    assert_eq!(parse_header(Some(&[])), Err(FdtError::BadHeader));
    assert_eq!(parse_header(Some(&good[..7])), Err(FdtError::BadHeader));

    let mut bad_magic = good.clone();
    bad_magic[0] = 0;
    assert_eq!(parse_header(Some(&bad_magic)), Err(FdtError::BadHeader));

    let mut small_total = good.clone();
    be32_at(&mut small_total, 4, 31);
    assert_eq!(parse_header(Some(&small_total)), Err(FdtError::BadHeader));

    let mut old_version = good.clone();
    be32_at(&mut old_version, 20, 15);
    assert_eq!(parse_header(Some(&old_version)), Err(FdtError::BadHeader));

    let mut new_compat = good.clone();
    be32_at(&mut new_compat, 24, 18);
    assert_eq!(parse_header(Some(&new_compat)), Err(FdtError::BadHeader));

    let mut misaligned_struct = good.clone();
    be32_at(&mut misaligned_struct, 8, 74);
    assert_eq!(parse_header(Some(&misaligned_struct)), Err(FdtError::BadHeader));

    let mut misaligned_rsv = good.clone();
    be32_at(&mut misaligned_rsv, 16, 44);
    assert_eq!(parse_header(Some(&misaligned_rsv)), Err(FdtError::BadHeader));

    let mut big_struct = good.clone();
    be32_at(&mut big_struct, 36, good.len() as u32);
    assert_eq!(parse_header(Some(&big_struct)), Err(FdtError::BadHeader));

    // A blob shorter than the size its header declares.
    assert_eq!(parse_header(Some(&good[..good.len() - 1])), Err(FdtError::BadHeader));
    assert!(matches!(probe(Some(&bad_magic)), Err(FdtError::BadHeader)));
}

#[test]
fn version_16_header_derives_block_sizes() {
    let mut b = Builder::new();
    b.begin("");
    b.prop_u32("x", 7);
    b.end();
    let blob = b.finish_with(16, true);
    let blocks = parse_header(Some(&blob)).unwrap();
    assert_eq!(blocks.size_dt_struct, blocks.string_base - blocks.struct_base);
    assert_eq!(blocks.size_dt_strings, blob.len() - blocks.string_base);
    let f = probe(Some(&blob)).unwrap();
    assert_eq!(find_node_u32_sized_prop_by_name(&f, 0, b"x"), Some(7));
}

// ---------------------------------------------------------------- structure

#[test]
fn counts_of_sample() {
    let blob = sample_blob();
    let b = parse_header(Some(&blob)).unwrap();
    assert_eq!(count(&blob, &b), Ok(Counts { nodes: 10, props: 33, max_depth: 4, reserved: 1 }));
}

fn structure_error(build: impl Fn(&mut Builder), with_end: bool) -> Option<FdtError> {
    let mut b = Builder::new();
    build(&mut b);
    let blob = b.finish_with(17, with_end);
    probe(Some(&blob)).err()
}

#[test]
fn structure_errors() {
    // No FDT_END token.
    assert_eq!(structure_error(|b| { b.begin(""); b.end(); }, false), Some(FdtError::BadStructure));
    // A node left open.
    assert_eq!(structure_error(|b| { b.begin(""); }, true), Some(FdtError::BadStructure));
    // A node end with no node open.
    assert_eq!(structure_error(|b| { b.begin(""); b.end(); b.end(); }, true), Some(FdtError::BadStructure));
    // A property outside any node.
    assert_eq!(structure_error(|b| { b.prop_u32("x", 1); b.begin(""); b.end(); }, true), Some(FdtError::BadStructure));
    // A property after a child node.
    assert_eq!(
        structure_error(|b| { b.begin(""); b.begin("a"); b.end(); b.prop_u32("x", 1); b.end(); }, true),
        Some(FdtError::BadStructure)
    );
    // An unknown token.
    assert_eq!(structure_error(|b| { b.begin(""); b.token(7); b.end(); }, true), Some(FdtError::BadStructure));
    // NOP tokens are skipped.
    assert_eq!(structure_error(|b| { b.token(4); b.begin(""); b.token(4); b.end(); }, true), None);
}

#[test]
fn property_name_outside_strings_is_refused() {
    let mut b = Builder::new();
    b.begin("");
    b.token(3);
    be32(&mut b.structs, 4);
    be32(&mut b.structs, 1000);
    be32(&mut b.structs, 5);
    b.end();
    let blob = b.finish();
    assert!(matches!(probe(Some(&blob)), Err(FdtError::BadStructure)));
}

#[test]
fn nesting_too_deep_is_refused() {
    let ok = structure_error(|b| { for _ in 0..64 { b.begin("n"); } for _ in 0..64 { b.end(); } }, true);
    assert_eq!(ok, None);
    let deep = structure_error(|b| { for _ in 0..65 { b.begin("n"); } for _ in 0..65 { b.end(); } }, true);
    assert_eq!(deep, Some(FdtError::BadStructure));
}

#[test]
fn too_many_nodes_fill_the_arena() {
    let mut b = Builder::new();
    b.begin("");
    for _ in 0..2000 {
        b.begin("");
        b.end();
    }
    b.end();
    let blob = b.finish();
    assert!(matches!(probe(Some(&blob)), Err(FdtError::ArenaFull)));
}

#[test]
fn error_codes() {
    assert_eq!(fdt_error_code(FdtError::NoDtb), b'D');
    assert_eq!(fdt_error_code(FdtError::BadHeader), b'H');
    assert_eq!(fdt_error_code(FdtError::BadStructure), b'S');
    assert_eq!(fdt_error_code(FdtError::ArenaFull), b'A');
}

// ---------------------------------------------------------------- the tree

#[test]
fn tree_shape() {
    let f = sample();
    assert_eq!(nodes(&f).len(), 10);
    assert_eq!(f.root, ROOT);
    assert_eq!(get_parent_by_node_idx(&f, ROOT), None);
    assert_eq!(get_parent_by_node_idx(&f, CPU0), Some(CPUS));
    assert_eq!(get_parent_by_node_idx(&f, INTC1), Some(CPU1));
    assert_eq!(get_parent_by_node_idx(&f, SERIAL), Some(SOC));
    assert_eq!(get_parent_by_node_idx(&f, 10), None);
    let root = get_node_from_arena_by_idx(&f, ROOT).unwrap();
    assert_eq!(root.first_child_idx, Some(CPUS));
    let cpus = get_node_from_arena_by_idx(&f, CPUS).unwrap();
    assert_eq!(cpus.next_sibling_idx, Some(MEMORY));
    assert_eq!(get_node_from_arena_by_idx(&f, MEMORY).unwrap().next_sibling_idx, Some(SOC));
    assert_eq!(get_node_from_arena_by_idx(&f, PLIC).unwrap().next_sibling_idx, Some(SERIAL));
    assert!(get_node_from_arena_by_idx(&f, 10).is_none());
    let n = get_node_from_arena_by_idx(&f, SERIAL).unwrap();
    assert_eq!(&f.blob[n.name_off..n.name_off + n.name_len], b"serial@10000000");
    assert_eq!(get_node_props(&f, SERIAL).len(), 4);
    assert_eq!(get_node_props(&f, 10).len(), 0);
    assert_eq!(fdt_total_size(&f) as usize, sample_blob().len());
    assert_eq!(get_reserved(&f), &[Resource { base: 0x8000_0000, size: 0x8_0000 }]);
}

#[test]
fn links_agree() {
    let f = sample();
    let ns = nodes(&f);
    let mut children = 0;
    for (i, n) in ns.iter().enumerate() {
        if let Some(c) = n.first_child_idx {
            assert_eq!(ns[c].paren_idx, Some(i));
        }
        if let Some(x) = n.next_sibling_idx {
            assert_eq!(ns[x].paren_idx, n.paren_idx);
        }
        // Walking the child chain finds every node that names `i` as parent.
        let mut cur = n.first_child_idx;
        let mut chain = Vec::new();
        while let Some(c) = cur {
            chain.push(c);
            cur = ns[c].next_sibling_idx;
        }
        let named: Vec<usize> = (0..ns.len()).filter(|&j| ns[j].paren_idx == Some(i)).collect();
        assert_eq!(chain, named);
        children += chain.len();
    }
    assert_eq!(children, ns.len() - 1);
    // Document order: names come in blob order and the root has no parent.
    for i in 1..ns.len() {
        assert!(ns[i - 1].name_off < ns[i].name_off);
    }
    assert_eq!(ns[f.root].paren_idx, None);
}

#[test]
fn properties_by_name() {
    let f = sample();
    assert_eq!(get_node_prop_value_by_name(&f, SERIAL, b"compatible"), Some(&b"ns16550a\0"[..]));
    assert_eq!(get_node_prop_value_by_name(&f, PLIC, b"interrupt-controller"), Some(&b""[..]));
    assert_eq!(get_node_prop_value_by_name(&f, SERIAL, b"nope"), None);
    assert_eq!(get_node_prop_value_by_name(&f, 42, b"reg"), None);
    assert_eq!(find_node_u32_sized_prop_by_name(&f, PLIC, b"phandle"), Some(2));
    assert_eq!(find_node_u32_sized_prop_by_name(&f, MEMORY, b"reg"), None);
    assert_eq!(get_parent_prop_by_name(&f, SERIAL, b"#size-cells", 7), 2);
    assert_eq!(get_parent_prop_by_name(&f, ROOT, b"#size-cells", 7), 7);
    assert_eq!(get_parent_prop_by_name(&f, INTC0, b"#size-cells", 7), 0);
    assert_eq!(get_parent_prop_by_name(&f, INTC0, b"missing", 7), 7);
}

#[test]
fn cell_sizes() {
    let f = sample();
    assert_eq!(address_cells(&f, CPU0), 1);
    assert_eq!(size_cells(&f, CPU0), 0);
    assert_eq!(address_cells(&f, MEMORY), 2);
    assert_eq!(size_cells(&f, MEMORY), 2);
    assert_eq!(address_cells(&f, ROOT), 2);
    assert_eq!(size_cells(&f, ROOT), 1);
}

#[test]
fn decoding_cells() {
    assert_eq!(decode_cells(&[0x12, 0x34, 0x56, 0x78]), Some(0x1234_5678));
    assert_eq!(decode_cells(&[0, 0, 0, 1, 0, 0, 0, 2]), Some(0x1_0000_0002));
    assert_eq!(decode_cells(&[]), None);
    assert_eq!(decode_cells(&[1, 2, 3]), None);
    assert_eq!(decode_cells(&[0; 12]), None);
}

#[test]
fn resources() {
    let f = sample();
    assert_eq!(get_resource(&f, SERIAL, 0), Some(Resource { base: 0x1000_0000, size: 0x100 }));
    assert_eq!(get_resource(&f, SERIAL, 1), None);
    assert_eq!(get_resource(&f, MEMORY, 0), Some(Resource { base: 0x8000_0000, size: 0x800_0000 }));
    assert_eq!(get_resource(&f, PLIC, 0), Some(Resource { base: 0xc00_0000, size: 0x60_0000 }));
    // Under `cpus` a `reg` is one address cell and no size cell.
    assert_eq!(get_resource(&f, CPU1, 0), Some(Resource { base: 1, size: 0 }));
    assert_eq!(get_resource(&f, CPUS, 0), None);
}

#[test]
fn phandles_and_compatibility() {
    let f = sample();
    assert_eq!(get_node_phandle_prop_by_idx(&f, INTC0), Some(1));
    assert_eq!(get_node_phandle_prop_by_idx(&f, INTC1), Some(3));
    assert_eq!(get_node_phandle_prop_by_idx(&f, ROOT), None);
    assert_eq!(find_node_by_phandle_prop(&f, 2), Some(PLIC));
    assert_eq!(find_node_by_phandle_prop(&f, 3), Some(INTC1));
    assert_eq!(find_node_by_phandle_prop(&f, 7), None);
    assert!(compatible_has(&f, PLIC, b"riscv,plic0"));
    assert!(compatible_has(&f, PLIC, b"sifive,plic-1.0.0"));
    assert!(!compatible_has(&f, PLIC, b"riscv"));
    assert!(!compatible_has(&f, MEMORY, b"riscv"));
    assert!(!compatible_has(&f, SERIAL, b""));
    assert_eq!(find_compatible_node_idx(&f, b""), None);
    assert_eq!(find_compatible_node_idx(&f, b"riscv"), Some(CPU0));
    assert_eq!(find_compatible_node_idx(&f, b"ns16550a"), Some(SERIAL));
    assert_eq!(find_compatible_node_idx(&f, b"virtio,mmio"), None);
    assert_eq!(get_node_idx_by_prop_name_and_val(&f, b"device_type", b"memory"), Some(MEMORY));
    assert_eq!(get_node_idx_by_prop_name_and_val(&f, b"device_type", b"cpu"), Some(CPU0));
    assert_eq!(get_node_idx_by_prop_name_and_val(&f, b"device_type", b"disk"), None);
}

#[test]
fn linux_phandle_is_accepted() {
    let mut b = Builder::new();
    b.begin("");
    b.begin("a");
    b.prop_u32("linux,phandle", 9);
    b.end();
    b.end();
    let f = probe(Some(&b.finish())).unwrap();
    assert_eq!(get_node_phandle_prop_by_idx(&f, 1), Some(9));
    assert_eq!(find_node_by_phandle_prop(&f, 9), Some(1));
}

#[test]
fn interrupt_routing() {
    let f = sample();
    assert_eq!(interrupt_cells(&f, PLIC), Some(1));
    assert_eq!(interrupt_cells(&f, ROOT), Some(1));
    assert_eq!(interrupt_cells(&f, 99), None);
    assert_eq!(interrupts_extended(&f, PLIC, 0), Some((1, 11)));
    assert_eq!(interrupts_extended(&f, PLIC, 1), Some((1, 9)));
    assert_eq!(interrupts_extended(&f, PLIC, 3), Some((3, 9)));
    assert_eq!(interrupts_extended(&f, PLIC, 4), None);
    assert_eq!(interrupts_extended(&f, SERIAL, 0), None);
    assert_eq!(find_interrupt_controller_amongst_parent_nodes(&f, SERIAL), Some(PLIC));
    assert_eq!(find_interrupt_controller_amongst_parent_nodes(&f, MEMORY), None);
    assert_eq!(get_node_interrupt_by_idx(&f, SERIAL, 0), Some(10));
    assert_eq!(get_node_interrupt_by_idx(&f, SERIAL, 1), None);
    assert_eq!(get_node_interrupt_by_idx(&f, MEMORY, 0), None);
}

#[test]
fn interrupt_controller_found_among_ancestors() {
    let mut b = Builder::new();
    b.begin("");
    b.begin("ctrl");
    b.prop("interrupt-controller", &[]);
    b.prop_u32("#interrupt-cells", 2);
    b.begin("dev");
    b.prop("interrupts", &cells(&[5, 0, 6, 0]));
    b.end();
    b.end();
    b.end();
    let f = probe(Some(&b.finish())).unwrap();
    assert_eq!(find_interrupt_controller_amongst_parent_nodes(&f, 2), Some(1));
    assert_eq!(get_node_interrupt_by_idx(&f, 2, 0), Some(5));
    assert_eq!(get_node_interrupt_by_idx(&f, 2, 1), Some(6));
    assert_eq!(get_node_interrupt_by_idx(&f, 2, 2), None);
}

// ---------------------------------------------------------------- PLIC

#[test]
fn plic_contexts_per_hart() {
    let f = sample();
    assert_eq!(hart_id_of(&f, INTC0), Some(0));
    assert_eq!(hart_id_of(&f, INTC1), Some(1));
    assert_eq!(hart_id_of(&f, SERIAL), None);
    assert_eq!(s_mode_context(&f, PLIC, Some(0)), Some(1));
    assert_eq!(s_mode_context(&f, PLIC, Some(1)), Some(3));
    assert_eq!(s_mode_context(&f, PLIC, Some(2)), None);
    assert_eq!(s_mode_context(&f, PLIC, None), None);
}

#[test]
fn plic_init_and_registers() {
    let f = sample();
    let s = plic_init(&f, PLIC, Some(0)).unwrap();
    assert_eq!((s.base, s.ctx, s.present), (0xc00_0000, 1, true));
    assert_eq!(claim(&s), Some(0xc00_0000 + 0x20_0004 + 0x1000));
    assert_eq!(complete(&s, 10), Some(RegWrite32 { addr: 0xc20_1004, value: 10 }));
    assert_eq!(complete(&s, 0), None);
    let w = program(&s, 10);
    assert_eq!(w[0], RegWrite32 { addr: 0xc00_0028, value: 1 });
    assert_eq!(w[1], RegWrite32 { addr: 0xc00_2080, value: 1 << 10 });
    assert_eq!(w[2], RegWrite32 { addr: 0xc20_1000, value: 0 });
    let s1 = plic_init(&f, PLIC, Some(1)).unwrap();
    assert_eq!(s1.ctx, 3);
    assert_eq!(program(&s1, 33)[1], RegWrite32 { addr: 0xc00_0000 + 0x2000 + 0x80 * 3 + 4, value: 1 << 1 });
    assert_eq!(program_uart(&s, true, 10), Some(w));
    assert_eq!(program_uart(&s, false, 10), None);
}

#[test]
fn plic_errors() {
    let f = sample();
    assert_eq!(plic_init(&f, CPUS, Some(0)), Err(PLICError::NoResources));
    assert_eq!(plic_init(&f, CPU0, Some(0)), Err(PLICError::BadResources));
    assert_eq!(plic_init(&f, PLIC, Some(7)), Err(PLICError::NoContext));
    assert_eq!(plic_init(&f, PLIC, None), Err(PLICError::NoContext));
    let absent = rvkernel::plic::absent();
    assert_eq!(claim(&absent), None);
    assert_eq!(complete(&absent, 10), None);
}

// ---------------------------------------------------------------- memory

const DTB_AT: usize = 0x8700_0000;
const KERNEL_START: usize = 0x8020_0000;
const KERNEL_END: usize = 0x8021_0010;

#[test]
fn usable_ranges_after_init() {
    let f = sample();
    let total = fdt_total_size(&f) as usize;
    let a = mm_init(&f, DTB_AT, KERNEL_START, KERNEL_END).unwrap();
    assert_eq!(a.bitmap.base, 0x8008_0000);
    assert_eq!(a.bitmap.frames, (0x8800_0000 - 0x8008_0000) / PAGE_SIZE);
    assert_eq!(a.bitmap.words.len(), 510);
    assert_eq!(a.bitmap_pa, 0x8008_0000);
    assert_eq!(
        a.usable_ranges(),
        &[
            Range { start: 0x8008_1000, end: 0x8020_0000 },
            Range { start: 0x8021_1000, end: DTB_AT },
            Range { start: DTB_AT + total, end: 0x8800_0000 },
        ]
    );
}

#[test]
fn frames_come_out_lowest_first_and_go_back() {
    let f = sample();
    let mut a = mm_init(&f, DTB_AT, KERNEL_START, KERNEL_END).unwrap();
    assert_eq!(a.alloc_frame(), Ok(0x8008_1000));
    assert_eq!(a.alloc_frame(), Ok(0x8008_2000));
    assert_eq!(a.free_frame(0x8008_1000), Ok(()));
    assert_eq!(a.alloc_frame(), Ok(0x8008_1000));
    // Not allocated, misaligned, below the base, beyond the frames.
    assert_eq!(a.free_frame(0x8008_3000), Err(MMError::FreeFrameError));
    assert_eq!(a.free_frame(0x8008_2001), Err(MMError::FreeFrameError));
    assert_eq!(a.free_frame(0x1000), Err(MMError::FreeFrameError));
    assert_eq!(a.free_frame(0x9000_0000), Err(MMError::FreeFrameError));
}

#[test]
fn allocation_never_repeats_until_exhausted() {
    let mut b = Builder::new();
    b.begin("");
    b.prop_u32("#address-cells", 1);
    b.prop_u32("#size-cells", 1);
    b.begin("memory");
    b.prop("device_type", &strs(&["memory"]));
    b.prop("reg", &cells(&[0x10_0000, 0x5000]));
    b.end();
    b.end();
    let f = probe(Some(&b.finish())).unwrap();
    // DTB and kernel elsewhere: the bitmap takes the first frame.
    let mut a = mm_init(&f, 0x100_0000, 0x200_0000, 0x200_1000).unwrap();
    assert_eq!(a.bitmap_pa, 0x10_0000);
    let mut got = Vec::new();
    while let Ok(pa) = a.alloc_frame() {
        assert!(!got.contains(&pa));
        got.push(pa);
    }
    assert_eq!(got, vec![0x10_1000, 0x10_2000, 0x10_3000, 0x10_4000]);
    assert_eq!(a.alloc_frame(), Err(MMError::AllocFrameError));
}

#[test]
fn init_errors() {
    // No memory node.
    let mut b = Builder::new();
    b.begin("");
    b.end();
    let f = probe(Some(&b.finish())).unwrap();
    assert!(matches!(mm_init(&f, 0, 0, 0), Err(MMError::InitError)));

    // A memory node whose ranges all have size zero.
    let mut b = Builder::new();
    b.begin("");
    b.prop_u32("#address-cells", 1);
    b.prop_u32("#size-cells", 1);
    b.begin("memory");
    b.prop("device_type", &strs(&["memory"]));
    b.prop("reg", &cells(&[0x10_0000, 0]));
    b.end();
    b.end();
    let f = probe(Some(&b.finish())).unwrap();
    assert!(matches!(mm_init(&f, 0, 0, 0), Err(MMError::InitError)));

    // The kernel covers all of RAM.
    let f = sample();
    assert!(matches!(mm_init(&f, 0, 0x8000_0000, 0x8800_0000), Err(MMError::InitError)));
    // The DTB's end overflows.
    assert!(matches!(mm_init(&f, usize::MAX, KERNEL_START, KERNEL_END), Err(MMError::InitError)));
}
