//! Kernel memory management.

pub mod page;
