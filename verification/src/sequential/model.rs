//! The table as a plain sequence of slots, and what each operation does to it
//! when it runs from start to end with no other thread writing in between.
//!
//! The operations of `MiniHash` read and write atomics that other threads may
//! change at any moment, so their own contracts cannot speak of the slots.
//! This module says what they compute on a table that is left alone: every
//! load returns what the sequence holds, and every claim of a vacant slot
//! succeeds.

use vstd::prelude::*;
use crate::access::Slot;
use crate::error::TableError;
use crate::placement::{probe_index, start_index, Placement};
use crate::probe::{sighting, stored, Sighting};

verus! {

/// A table of `capacity` slots that no key has claimed.
pub open spec fn fresh(capacity: nat) -> Seq<Slot> {
    Seq::new(capacity, |i: int| Slot { key: 0, value: 0 })
}

/// Whether the slot visited at probe step `step` is one that `key` cannot use.
pub open spec fn blocked_at(slots: Seq<Slot>, key: u32, start: nat, step: nat) -> bool {
    sighting(slots[probe_index(start, step, slots.len()) as int].key, key) == Sighting::Foreign
}

/// The first probe step, from `from` on, at which `key` finds a slot that is
/// vacant or its own; `None` if every remaining step is blocked.
pub open spec fn hit_step(slots: Seq<Slot>, key: u32, start: nat, from: nat) -> Option<nat>
    decreases slots.len() - from,
{
    if from >= slots.len() {
        None
    } else if !blocked_at(slots, key, start, from) {
        Some(from)
    } else {
        hit_step(slots, key, start, from + 1)
    }
}

/// The slot on which `key` lands: the first on its probe path that is vacant
/// or already holds `key`.
pub open spec fn landing(slots: Seq<Slot>, placement: Placement, key: u32) -> Option<int> {
    let start = start_index(placement, key, slots.len());
    match hit_step(slots, key, start, 0) {
        Some(step) => Some(probe_index(start, step, slots.len()) as int),
        None => None,
    }
}

/// What `set(key, value)` returns.
pub open spec fn set_outcome(
    slots: Seq<Slot>,
    placement: Placement,
    key: u32,
    value: u32,
) -> Result<(), TableError> {
    if key == 0 || value == 0 {
        Err(TableError::InvalidArgument)
    } else if landing(slots, placement, key) is Some {
        Ok(())
    } else {
        Err(TableError::CapacityExhausted)
    }
}

/// The slots after `set(key, value)`: the landing slot holds the pair, and
/// nothing changes when the call fails.
pub open spec fn after_set(
    slots: Seq<Slot>,
    placement: Placement,
    key: u32,
    value: u32,
) -> Seq<Slot> {
    if set_outcome(slots, placement, key, value) is Ok {
        slots.update(landing(slots, placement, key).unwrap(), Slot { key, value })
    } else {
        slots
    }
}

/// What `get(key)` returns.
pub open spec fn get_outcome(
    slots: Seq<Slot>,
    placement: Placement,
    key: u32,
) -> Result<Option<u32>, TableError> {
    if key == 0 {
        Err(TableError::InvalidArgument)
    } else {
        match landing(slots, placement, key) {
            Some(index) => Ok(
                if slots[index].key == key {
                    stored(slots[index].value)
                } else {
                    None
                },
            ),
            None => Ok(None),
        }
    }
}

/// Whether slot `index` lacks a key or a value.
pub open spec fn unfinished(slots: Seq<Slot>, index: int) -> bool {
    slots[index].key == 0 || slots[index].value == 0
}

/// What `len()` returns: the index of the first slot, from `from` on, that
/// lacks a key or a value, or the capacity.
pub open spec fn len_from(slots: Seq<Slot>, from: nat) -> nat
    decreases slots.len() - from,
{
    if from >= slots.len() {
        slots.len()
    } else if unfinished(slots, from as int) {
        from
    } else {
        len_from(slots, from + 1)
    }
}

/// What `len()` returns.
pub open spec fn len_outcome(slots: Seq<Slot>) -> nat {
    len_from(slots, 0)
}

/// What `is_empty()` returns: whether no slot holds a key.
pub open spec fn is_empty_outcome(slots: Seq<Slot>) -> bool {
    forall|i: int| 0 <= i < slots.len() ==> (#[trigger] slots[i]).key == 0
}

/// Whether slot `index` holds `key` together with a value.
pub open spec fn binds(slots: Seq<Slot>, index: int, key: u32) -> bool {
    &&& 0 <= index < slots.len()
    &&& key != 0
    &&& slots[index].key == key
    &&& slots[index].value != 0
}

/// The table as a map: each key that some slot holds with a value, mapped to
/// that value.
pub open spec fn contents(slots: Seq<Slot>) -> Map<u32, u32> {
    Map::new(
        |key: u32| exists|i: int| binds(slots, i, key),
        |key: u32| slots[choose|i: int| binds(slots, i, key)].value,
    )
}

/// The value that the map `entries` holds for `key`, if any.
pub open spec fn lookup(entries: Map<u32, u32>, key: u32) -> Option<u32> {
    if entries.contains_key(key) {
        Some(entries[key])
    } else {
        None
    }
}

/// The number of slots, among the first `upto`, that hold a key.
pub open spec fn occupied(slots: Seq<Slot>, upto: nat) -> nat
    decreases upto,
{
    if upto == 0 {
        0
    } else if slots[upto - 1].key != 0 {
        occupied(slots, (upto - 1) as nat) + 1
    } else {
        occupied(slots, (upto - 1) as nat)
    }
}

/// The slots after one `set` per pair of `writes`, in order.
pub open spec fn replay(
    slots: Seq<Slot>,
    placement: Placement,
    writes: Seq<(u32, u32)>,
) -> Seq<Slot>
    decreases writes.len(),
{
    if writes.len() == 0 {
        slots
    } else {
        after_set(
            replay(slots, placement, writes.drop_last()),
            placement,
            writes.last().0,
            writes.last().1,
        )
    }
}

/// Whether every key sits in the slot where a search for it ends. Then no
/// two slots hold the same key, and no vacant slot lies on the probe path
/// between the start of a key and its slot.
pub open spec fn placed(slots: Seq<Slot>, placement: Placement) -> bool {
    forall|i: int|
        0 <= i < slots.len() && (#[trigger] slots[i]).key != 0 ==> landing(
            slots,
            placement,
            slots[i].key,
        ) == Some(i)
}

/// What holds of the slots between operations: the table has a slot, every
/// key is placed, and a slot has a key exactly when it has a value.
pub open spec fn settled(slots: Seq<Slot>, placement: Placement) -> bool {
    &&& slots.len() > 0
    &&& placed(slots, placement)
    &&& forall|i: int|
        0 <= i < slots.len() ==> ((#[trigger] slots[i]).key == 0 <==> slots[i].value == 0)
}

} // verus!
