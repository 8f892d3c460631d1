//! A fixed-capacity, lock-free table from nonzero 32-bit keys to nonzero
//! 32-bit values.
//!
//! `MiniHash` is the table. Its slots are pairs of atomics, so any number of
//! threads may call `set` and `get` through a shared reference, and no call
//! ever waits for another.
//!
//! Every operation is a run of atomic accesses to single slots. Which access
//! comes next, and what follows from what it returned, is decided by a call
//! (`call`, `scan`): a small state machine that never touches the table and
//! is verified on its own. The table makes the accesses that the call names,
//! and is verified to stay inside its slots and to come to an end.
//!
//! The contracts of the table's operations cannot speak of what the slots
//! hold, since other threads may change that at any moment. The meaning of
//! the operations is therefore stated and proved on the slots as plain values
//! (`access`): `sequential` for calls that run one after another,
//! `concurrent` for calls whose accesses interleave in any order.

pub mod access;
pub mod call;
pub mod concurrent;
pub mod error;
pub mod hash;
pub mod placement;
pub mod probe;
pub mod scan;
pub mod sequential;
mod slot;
pub mod table;

pub use error::TableError;
pub use hash::simple_hash;
pub use placement::Placement;
pub use table::MiniHash;
