//! What a caller concludes from one look at a slot.

use vstd::prelude::*;

verus! {

/// What a slot's key field means to a caller that works on a given key.
#[derive(Clone, Copy, Debug, PartialEq, Eq, Structural)]
pub enum Sighting {
    /// The slot holds no key yet.
    Vacant,
    /// The slot holds the caller's key.
    Owned,
    /// The slot holds another key.
    Foreign,
}

/// The meaning of the key field `observed` for a caller that works on `key`.
pub open spec fn sighting(observed: u32, key: u32) -> Sighting {
    if observed == key {
        Sighting::Owned
    } else if observed == 0 {
        Sighting::Vacant
    } else {
        Sighting::Foreign
    }
}

/// What a value field stands for: zero means that no value was stored yet.
pub open spec fn stored(value: u32) -> Option<u32> {
    if value == 0 {
        None
    } else {
        Some(value)
    }
}

/// Classifies the key field `observed` for a caller that works on `key`.
pub fn classify(observed: u32, key: u32) -> (seen: Sighting)
    ensures
        seen == sighting(observed, key),
{
    if observed == key {
        Sighting::Owned
    } else if observed == 0 {
        Sighting::Vacant
    } else {
        Sighting::Foreign
    }
}

/// Turns the value field `value` into the value it stands for, if any.
pub fn present(value: u32) -> (found: Option<u32>)
    ensures
        found == stored(value),
{
    if value == 0 {
        None
    } else {
        Some(value)
    }
}

} // verus!
