//! Verified core of a small RISC-V teaching kernel: the page allocator's
//! descriptor table, the UART register programming and the CPU mode bits.

pub mod kmem;
pub mod rv64;
pub mod uart;
