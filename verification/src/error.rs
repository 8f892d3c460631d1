//! The ways in which an operation on the table can fail.

use vstd::prelude::*;

verus! {

/// Why an operation on the table did not take place.
#[derive(Clone, Copy, Debug, PartialEq, Eq, Structural)]
pub enum TableError {
    /// Every slot on the key's probe path holds another key.
    CapacityExhausted,
    /// A key or a value was zero, which is reserved for "none".
    InvalidArgument,
}

} // verus!
