//! Verified core of a small RISC-V kernel: device-tree parsing, the physical
//! frame allocator, Sv39 page-table mapping and the decision logic of the
//! UART, PLIC and timer drivers.
use vstd::prelude::*;

pub mod utils;
pub mod fdt;
pub mod fdt_links;
pub mod fdt_query;
pub mod mm;
pub mod paging;
pub mod plic;
pub mod timer_interrupt;
pub mod uart;
