//! Where a key starts probing, and the order in which its slots are visited.

use vstd::prelude::*;
use crate::hash::{finalizer, simple_hash};

verus! {

/// How a table picks the first slot that a key probes.
#[derive(Clone, Copy, Debug, PartialEq, Eq, Structural)]
pub enum Placement {
    /// Every key starts at slot 0, so keys fill the slots in arrival order.
    Sequential,
    /// A key starts at its hash modulo the capacity.
    Hashed,
}

/// The slot at which `key` starts probing in a table of `capacity` slots.
pub open spec fn start_index(placement: Placement, key: u32, capacity: nat) -> nat {
    match placement {
        Placement::Sequential => 0,
        Placement::Hashed => finalizer(key) as nat % capacity,
    }
}

/// The slot visited at probe step `step` by a key that starts at `start`:
/// one slot to the right per step, wrapping at the end of the table.
pub open spec fn probe_index(start: nat, step: nat, capacity: nat) -> nat {
    (start + step) % capacity
}

/// Computes the slot at which `key` starts probing.
pub fn probe_start(placement: Placement, key: u32, capacity: usize) -> (start: usize)
    requires
        capacity > 0,
    ensures
        start == start_index(placement, key, capacity as nat),
        start < capacity,
{
    match placement {
        Placement::Sequential => 0,
        Placement::Hashed => simple_hash(key) as usize % capacity,
    }
}

/// Computes the slot that follows `index` in probe order.
pub fn next_index(index: usize, capacity: usize) -> (next: usize)
    requires
        index < capacity,
    ensures
        next == (index + 1) % (capacity as int),
        next < capacity,
{
    (index + 1) % capacity
}

/// Advancing from the slot of step `step` reaches the slot of step `step + 1`.
pub proof fn lemma_probe_advance(start: nat, step: nat, capacity: nat)
    requires
        capacity > 0,
    ensures
        probe_index(start, step + 1, capacity) == (probe_index(start, step, capacity) + 1)
            % capacity,
        probe_index(start, step, capacity) < capacity,
{
    vstd::arithmetic::div_mod::lemma_add_mod_noop((start + step) as int, 1, capacity as int);
    vstd::arithmetic::div_mod::lemma_mod_bound((start + step) as int, capacity as int);
    vstd::arithmetic::div_mod::lemma_small_mod(
        probe_index(start, step, capacity),
        capacity,
    );
    if capacity == 1 {
    } else {
        vstd::arithmetic::div_mod::lemma_small_mod(1, capacity);
    }
}

} // verus!
