# kernel

The verified core of a small RISC-V teaching kernel.

- `src/kmem/page.rs`: the page allocator. A descriptor table holds one
  status byte per heap page (empty, used, used and last); allocation is first
  fit over the table, deallocation walks an allocation to its last page, and a
  report lists the allocations and the usage. Contracts state each operation
  over the table as a sequence of bytes; proof functions state what holds
  across operations (giving back an allocation restores the table, a second
  give-back is refused).
- `src/rv64.rs`: privilege-mode bit patterns and the `mstatus` value used to
  enter supervisor mode.
- `src/uart.rs`: the register writes that set up and drive a 16550 UART.
- `app/`: boot code, hart registers, memory-mapped writes and heap memory;
  on a non-RISC-V host a simulated machine stands in for the hardware.
