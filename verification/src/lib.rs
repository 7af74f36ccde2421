//! Dynamic-memory subsystem of a bare-metal kernel, modelled over plain
//! addresses: three interchangeable allocation strategies (bump,
//! address-ordered free list, size-classed with fallback) together with the
//! frame supply and page-mapping step that backs the heap range before the
//! active strategy takes it over.
//!
//! Free blocks are represented as explicit `(address, size)` records
//! rather than as nodes written into the freed bytes themselves; the
//! placement and reuse order of the in-place representation is kept
//! exactly, so the proofs speak of the addresses the kernel build hands
//! out.

pub mod allocator;
pub mod memory;
