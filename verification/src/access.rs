//! The slots as plain values, and the atomic accesses that every operation
//! on the table is made of.

use vstd::prelude::*;

verus! {

/// The two fields of a slot as plain values. Zero in the key field means
/// that no key has claimed the slot; zero in the value field means that no
/// value has been stored yet.
pub struct Slot {
    pub key: u32,
    pub value: u32,
}

/// One atomic access to one slot.
#[derive(Clone, Copy, Debug, PartialEq, Eq)]
pub enum Access {
    /// Load the key field.
    LoadKey,
    /// Compare the key field with zero and, if it is zero, replace it by
    /// `key`: one compare-and-swap, not repeated when it fails.
    ClaimKey { key: u32 },
    /// Load the value field.
    LoadValue,
    /// Store `value` in the value field.
    StoreValue { value: u32 },
}

/// What an access returns on a slot that holds `slot`: a load returns the
/// field, a claim returns the key field as it was before, and a store
/// returns nothing, which counts as zero.
pub open spec fn returned(slot: Slot, access: Access) -> u32 {
    match access {
        Access::LoadKey => slot.key,
        Access::ClaimKey { key } => slot.key,
        Access::LoadValue => slot.value,
        Access::StoreValue { value } => 0,
    }
}

/// What a slot that holds `slot` holds after an access: a claim fills the
/// key field if it was zero, a store replaces the value field, and a load
/// changes nothing.
pub open spec fn effect(slot: Slot, access: Access) -> Slot {
    match access {
        Access::LoadKey => slot,
        Access::ClaimKey { key } => if slot.key == 0 {
            Slot { key, value: slot.value }
        } else {
            slot
        },
        Access::LoadValue => slot,
        Access::StoreValue { value } => Slot { key: slot.key, value },
    }
}

} // verus!
