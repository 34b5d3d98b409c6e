//! A user-space model of a small kernel: physical frame bookkeeping, Sv39-style
//! page tables and a first-fit kernel heap over one flat arena, and a toy
//! process scheduler. The contracts are proved with Verus; the calls into
//! `std::time`, `ToString` and `spin` stand behind wrappers that are trusted.

pub mod memory;
pub mod scheduler;
