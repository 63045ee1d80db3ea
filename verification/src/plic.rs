//! The platform-level interrupt controller: finding its registers and this
//! hart's S-mode context in the device tree, and the register writes that
//! claim, complete and enable interrupts.
use vstd::prelude::*;
use crate::fdt::{Fdt, Resource, node_wf};
use crate::fdt_query::{
    compatible_has, compatible_spec, find_node_by_phandle_prop, find_node_u32_sized_prop_by_name,
    get_parent_by_node_idx, get_resource, interrupts_extended, interrupts_extended_spec, lemma_ext_entry_len,
    lemma_prop_value_within, name_interrupts_extended, name_reg, parent_of, phandle_node, prop_value_by_name,
    resource_spec, u32_prop,
};

verus! {

pub const ENABLE_OFFSET: usize = 0x0000_2000;
pub const ENABLE_BYTES_PER_CTX: usize = 0x80;
pub const THRESHOLD_OFFSET: usize = 0x0020_0000;
pub const CLAIM_OFFSET: usize = 0x0020_0004;
pub const PAGE_SIZE_PER_CTX: usize = 0x1000;
pub const PRIORITY_OFFSET: usize = 0;
pub const PLIC_REGISTER_SIZE_BYTES: usize = 4;

/// Specifier cell value for the S-mode external interrupt of a RISC-V
/// CPU-local interrupt controller.
pub const S_MODE_EXTERNAL_IRQ: u32 = 9;

/// Why the PLIC could not be set up.
#[derive(PartialEq, Eq, Structural, Clone, Copy, Debug)]
pub enum PLICError {
    NoResources,
    BadResources,
    NoContext,
}

/// Where the PLIC's registers are and which context is this hart's S-mode.
#[derive(PartialEq, Eq, Structural, Clone, Copy, Debug)]
pub struct PlicState {
    pub base: usize,
    pub ctx: usize,
    pub present: bool,
}

/// A 32-bit register write.
#[derive(PartialEq, Eq, Structural, Clone, Copy, Debug)]
pub struct RegWrite32 {
    pub addr: usize,
    pub value: u32,
}

/// The bytes of `riscv`.
pub open spec fn name_riscv() -> Seq<u8> {
    seq![114u8, 105u8, 115u8, 99u8, 118u8]
}

/// Walking up from node `p` (itself included), the `reg` of the first node
/// compatible with `riscv`.
pub open spec fn cpu_reg_from(f: &Fdt, p: int) -> Option<u32>
    decreases p,
{
    if p < 0 || p >= f.nodes@.len() {
        None
    } else if compatible_spec(f, p, name_riscv()) {
        u32_prop(f, p, name_reg())
    } else {
        match f.nodes@[p].paren_idx {
            Some(q) => if q < p { cpu_reg_from(f, q as int) } else { None },
            None => None,
        }
    }
}

/// The hart id of the CPU above node `i`: the `reg` of its nearest proper
/// ancestor compatible with `riscv`.
pub open spec fn hart_id_spec(f: &Fdt, i: int) -> Option<u32> {
    match parent_of(f, i) {
        Some(p) => cpu_reg_from(f, p as int),
        None => None,
    }
}

/// Returns the hart id of the CPU that owns an interrupt controller.
pub fn hart_id_of(fdt: &Fdt, node_idx: usize) -> (r: Option<u32>)
    requires
        fdt.wf(),
    ensures
        r == hart_id_spec(fdt, node_idx as int),
{
    let riscv: [u8; 5] = [114, 105, 115, 99, 118];
    let reg: [u8; 3] = [114, 101, 103];
    let mut cur = get_parent_by_node_idx(fdt, node_idx);
    proof {
        if node_idx < fdt.nodes@.len() {
            assert(node_wf(fdt.nodes@, fdt.props@.len() as int, fdt.blob@.len() as int, node_idx as int));
        }
    }
    loop
        invariant
            fdt.wf(),
            riscv@ == name_riscv(),
            reg@ == name_reg(),
            hart_id_spec(fdt, node_idx as int) == (match cur {
                Some(p) => cpu_reg_from(fdt, p as int),
                None => None,
            }),
        decreases (match cur { Some(p) => p + 1, None => 0 }),
    {
        match cur {
            None => { return None; },
            Some(p) => {
                if compatible_has(fdt, p, &riscv) {
                    return find_node_u32_sized_prop_by_name(fdt, p, &reg);
                }
                proof {
                    if p < fdt.nodes@.len() {
                        assert(node_wf(fdt.nodes@, fdt.props@.len() as int, fdt.blob@.len() as int, p as int));
                    }
                }
                cur = get_parent_by_node_idx(fdt, p);
            },
        }
    }
}

/// From entry `i` of the PLIC's interrupts-extended on: the first entry that
/// routes the S-mode external interrupt to a controller of hart `hart`.
/// The search stops, finding nothing, at the end of the entries or at an
/// entry whose phandle names no node.
pub open spec fn s_mode_context_from(f: &Fdt, plic: int, hart: u32, i: int) -> Option<usize>
    decreases f.blob@.len() - i,
{
    if i < 0 || i >= f.blob@.len() {
        None
    } else {
        match interrupts_extended_spec(f, plic, i as nat) {
            None => None,
            Some((phandle, irq)) => if irq != S_MODE_EXTERNAL_IRQ {
                s_mode_context_from(f, plic, hart, i + 1)
            } else {
                match phandle_node(f, phandle) {
                    None => None,
                    Some(ic) => if hart_id_spec(f, ic) == Some(hart) {
                        Some(i as usize)
                    } else {
                        s_mode_context_from(f, plic, hart, i + 1)
                    },
                }
            },
        }
    }
}

/// An entry that exists has an index below the blob's length.
proof fn lemma_ext_index_bound(f: &Fdt, plic: int, i: int)
    requires
        f.wf(),
        0 <= i,
        interrupts_extended_spec(f, plic, i as nat) is Some,
    ensures
        i < f.blob@.len(),
{
    lemma_prop_value_within(f, plic, name_interrupts_extended());
    let v = prop_value_by_name(f, plic, name_interrupts_extended())->Some_0;
    lemma_ext_entry_len(f, v, 0, i as nat);
}

/// Returns the PLIC context id of the current hart's S-mode: the position
/// of the interrupts-extended entry that sends the S-mode external
/// interrupt to this hart. `None` when the hart is unknown.
pub fn s_mode_context(fdt: &Fdt, plic_idx: usize, hart_id: Option<u32>) -> (r: Option<usize>)
    requires
        fdt.wf(),
    ensures
        hart_id is None ==> r is None,
        hart_id matches Some(h) ==> r == s_mode_context_from(fdt, plic_idx as int, h, 0),
{
    let hart = match hart_id {
        Some(h) => h,
        None => { return None; },
    };
    let mut i = 0usize;
    proof {
        assert(fdt.blob@.len() == fdt.blob.len());
    }
    loop
        invariant
            fdt.wf(),
            fdt.blob@.len() <= usize::MAX,
            hart_id == Some(hart),
            i <= fdt.blob@.len(),
            s_mode_context_from(fdt, plic_idx as int, hart, 0) == s_mode_context_from(fdt, plic_idx as int, hart, i as int),
        decreases fdt.blob@.len() - i,
    {
        let (phandle, irq) = match interrupts_extended(fdt, plic_idx, i) {
            Some(e) => e,
            None => { return None; },
        };
        proof {
            lemma_ext_index_bound(fdt, plic_idx as int, i as int);
        }
        if irq == S_MODE_EXTERNAL_IRQ {
            let interrupt_controller = match find_node_by_phandle_prop(fdt, phandle) {
                Some(c) => c,
                None => { return None; },
            };
            match hart_id_of(fdt, interrupt_controller) {
                Some(h) => {
                    if h == hart {
                        return Some(i);
                    }
                },
                None => {},
            }
        }
        i = i + 1;
    }
}

/// What `init` finds: the registers from the node's first `reg` entry and
/// this hart's S-mode context.
pub open spec fn plic_init_spec(f: &Fdt, node: int, hart_id: Option<u32>) -> Result<PlicState, PLICError> {
    match resource_spec(f, node, 0) {
        None => Err(PLICError::NoResources),
        Some(res) => if res.size == 0 {
            Err(PLICError::BadResources)
        } else {
            let ctx = match hart_id {
                Some(h) => s_mode_context_from(f, node, h, 0),
                None => None,
            };
            match ctx {
                None => Err(PLICError::NoContext),
                Some(c) => if res.base > usize::MAX {
                    Err(PLICError::BadResources)
                } else {
                    Ok(PlicState { base: res.base as usize, ctx: c, present: true })
                },
            }
        },
    }
}

/// Finds the PLIC registers and this hart's S-mode context from the PLIC's
/// device-tree node. The caller programs the interrupts it wants.
pub fn init(fdt: &Fdt, node_idx: usize, hart_id: Option<u32>) -> (r: Result<PlicState, PLICError>)
    requires
        fdt.wf(),
    ensures
        r == plic_init_spec(fdt, node_idx as int, hart_id),
{
    let resource = match get_resource(fdt, node_idx, 0) {
        Some(r) => r,
        None => { return Err(PLICError::NoResources); },
    };
    if resource.size == 0 {
        return Err(PLICError::BadResources);
    }
    let context = match s_mode_context(fdt, node_idx, hart_id) {
        Some(c) => c,
        None => { return Err(PLICError::NoContext); },
    };
    if resource.base > usize::MAX as u64 {
        return Err(PLICError::BadResources);
    }
    Ok(PlicState { base: resource.base as usize, ctx: context, present: true })
}

/// The state before any PLIC was found.
pub fn absent() -> (r: PlicState)
    ensures
        !r.present,
{
    PlicState { base: 0, ctx: 0, present: false }
}

/// The register base.
pub fn base(state: &PlicState) -> (r: usize)
    ensures
        r == state.base,
{
    state.base
}

/// The context id.
pub fn ctx(state: &PlicState) -> (r: usize)
    ensures
        r == state.ctx,
{
    state.ctx
}

/// Whether a PLIC was found.
pub fn present(state: &PlicState) -> (r: bool)
    ensures
        r == state.present,
{
    state.present
}

/// The address of the register at `offset`.
pub fn reg_addr(state: &PlicState, offset: usize) -> (r: usize)
    requires
        state.base + offset <= usize::MAX,
    ensures
        r == state.base + offset,
{
    state.base + offset
}

/// The claim/complete register of the context.
pub open spec fn claim_reg(state: PlicState) -> int {
    state.base + CLAIM_OFFSET + PAGE_SIZE_PER_CTX * state.ctx
}

/// The register to read to claim an interrupt; `None` when no PLIC was
/// found, in which case no interrupt (0) is pending.
pub fn claim(state: &PlicState) -> (r: Option<usize>)
    requires
        state.present ==> claim_reg(*state) <= usize::MAX,
    ensures
        r == (if state.present { Some(claim_reg(*state) as usize) } else { None::<usize> }),
{
    if !present(state) {
        return None;
    }
    Some(reg_addr(state, CLAIM_OFFSET + PAGE_SIZE_PER_CTX * ctx(state)))
}

/// The write that completes interrupt `irq`; nothing for no PLIC or for
/// interrupt 0.
pub fn complete(state: &PlicState, irq: u32) -> (r: Option<RegWrite32>)
    requires
        state.present ==> claim_reg(*state) <= usize::MAX,
    ensures
        r == (if state.present && irq != 0 {
            Some(RegWrite32 { addr: claim_reg(*state) as usize, value: irq })
        } else {
            None::<RegWrite32>
        }),
{
    if !present(state) || irq == 0 {
        return None;
    }
    Some(RegWrite32 { addr: reg_addr(state, CLAIM_OFFSET + PAGE_SIZE_PER_CTX * ctx(state)), value: irq })
}

/// The registers `program` writes lie in the address space.
pub open spec fn program_fits(state: PlicState, irq: u32) -> bool {
    &&& state.base + PRIORITY_OFFSET + PLIC_REGISTER_SIZE_BYTES * irq <= usize::MAX
    &&& state.base + ENABLE_OFFSET + ENABLE_BYTES_PER_CTX * state.ctx + (irq / 32) * 4 <= usize::MAX
    &&& state.base + THRESHOLD_OFFSET + PAGE_SIZE_PER_CTX * state.ctx <= usize::MAX
}

/// The writes that let interrupt `irq` through to the context: priority 1,
/// its enable bit, and threshold 0, in that order.
pub fn program(state: &PlicState, irq: u32) -> (r: [RegWrite32; 3])
    requires
        program_fits(*state, irq),
    ensures
        r[0] == (RegWrite32 { addr: (state.base + PLIC_REGISTER_SIZE_BYTES * irq) as usize, value: 1 }),
        r[1] == (RegWrite32 {
            addr: (state.base + ENABLE_OFFSET + ENABLE_BYTES_PER_CTX * state.ctx + (irq / 32) * 4) as usize,
            value: (1u32 << (irq % 32)) as u32,
        }),
        r[2] == (RegWrite32 { addr: (state.base + THRESHOLD_OFFSET + PAGE_SIZE_PER_CTX * state.ctx) as usize, value: 0 }),
{
    let irq_u = irq as usize;
    [
        RegWrite32 { addr: reg_addr(state, PRIORITY_OFFSET + PLIC_REGISTER_SIZE_BYTES * irq_u), value: 1 },
        RegWrite32 {
            addr: reg_addr(state, ENABLE_OFFSET + ENABLE_BYTES_PER_CTX * ctx(state) + (irq_u / 32) * 4),
            value: 1u32 << (irq % 32),
        },
        RegWrite32 { addr: reg_addr(state, THRESHOLD_OFFSET + PAGE_SIZE_PER_CTX * ctx(state)), value: 0 },
    ]
}

/// The writes that follow setting the PLIC up: the UART's interrupt `irq`
/// is let through (as `program` does) when a UART was found, and nothing is
/// written otherwise.
pub fn program_uart(state: &PlicState, uart_found: bool, irq: u32) -> (r: Option<[RegWrite32; 3]>)
    requires
        uart_found ==> program_fits(*state, irq),
    ensures
        !uart_found ==> r is None,
        uart_found ==> (r matches Some(w) && {
            &&& w[0] == (RegWrite32 { addr: (state.base + PLIC_REGISTER_SIZE_BYTES * irq) as usize, value: 1 })
            &&& w[1] == (RegWrite32 {
                addr: (state.base + ENABLE_OFFSET + ENABLE_BYTES_PER_CTX * state.ctx + (irq / 32) * 4) as usize,
                value: (1u32 << (irq % 32)) as u32,
            })
            &&& w[2] == (RegWrite32 { addr: (state.base + THRESHOLD_OFFSET + PAGE_SIZE_PER_CTX * state.ctx) as usize, value: 0 })
        }),
{
    if uart_found {
        Some(program(state, irq))
    } else {
        None
    }
}

} // verus!
