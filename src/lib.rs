//! Simulated address space for an interpreter: assigns concrete addresses to
//! allocation handles, resolves addresses back to handles, reuses freed ranges
//! and optionally translates through a page table.

pub mod addresses;
pub mod clock;
pub mod page_table;
pub mod random;
pub mod reuse_pool;
