# rvkernel

The decision-making core of a small RISC-V (Sv39, QEMU `virt`) kernel,
verified with Verus: what it reads from the flattened device tree, how it
lays out and hands out physical frames, how it builds page tables, and what
it writes to the UART, the PLIC and the timer.

- `src/utils.rs`: big-endian reads, alignment, NUL-terminated strings.
- `src/fdt.rs`: the DTB header, the validating counting pass, the arena and
  the tree-building pass (`probe`).
- `src/fdt_links.rs`: why the tree-building pass leaves the parent, child
  and sibling links consistent and in document order.
- `src/fdt_query.rs`: properties by name, `#address-cells`/`#size-cells`,
  `reg` resources, phandles, `compatible`, interrupt routing.
- `src/mm.rs`: usable RAM ranges, the frame bitmap, `init`, allocation and
  release of frames.
- `src/paging.rs`: Sv39 entries and `map_virtual_to_physical` over a model
  of the page-table pages.
- `src/plic.rs`, `src/uart.rs`, `src/timer_interrupt.rs`: the device
  registers to write, decided from the device tree and the interrupt state,
  and the console's ring buffer.

Device registers are not touched by the library: functions return the
writes (`RegWrite8`, `RegWrite32`) or the register address to read, and the
caller performs them. `app/` is a host program that runs the start-up on a
DTB file and prints those writes, then echoes standard input through the
console buffer.
