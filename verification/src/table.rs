//! The table itself: a fixed array of slots shared between threads.

use vstd::prelude::*;
use crate::call::{read_turns_left, write_turns_left, GetCall, Pending, SetCall};
use crate::error::TableError;
use crate::placement::Placement;
use crate::scan::{
    check_turns_left, checker_in_range, count_turns_left, counter_in_range, EmptyCall, LenCall,
};
use crate::slot::Entry;

verus! {

/// A fixed-capacity table from nonzero keys to nonzero values that any number
/// of threads may read and write through a shared reference.
///
/// No operation locks, waits or retries: each is a bounded run of atomic
/// accesses. Which accesses a `set` or a `get` makes, and what it does with
/// what they return, is decided by `SetCall` and `GetCall`; the table only
/// makes the accesses. What a run of accesses amounts to is proved in
/// `sequential` and `concurrent`.
#[derive(Debug)]
pub struct MiniHash {
    entries: Vec<Entry>,
    placement: Placement,
}

impl MiniHash {
    #[verifier::type_invariant]
    spec fn has_slots(&self) -> bool {
        self.entries@.len() > 0
    }

    /// The number of slots, fixed when the table is made.
    pub closed spec fn spec_capacity(&self) -> nat {
        self.entries@.len()
    }

    /// The placement strategy, fixed when the table is made.
    pub closed spec fn spec_placement(&self) -> Placement {
        self.placement
    }

    /// Makes a table of `capacity` vacant slots with hashed placement.
    pub fn new(capacity: usize) -> (table: MiniHash)
        requires
            capacity > 0,
        ensures
            table.spec_capacity() == capacity,
            table.spec_placement() == Placement::Hashed,
    {
        MiniHash::with_placement(capacity, Placement::Hashed)
    }

    /// Makes a table of `capacity` vacant slots with the given placement.
    pub fn with_placement(capacity: usize, placement: Placement) -> (table: MiniHash)
        requires
            capacity > 0,
        ensures
            table.spec_capacity() == capacity,
            table.spec_placement() == placement,
    {
        let mut entries: Vec<Entry> = Vec::with_capacity(capacity);
        let mut filled: usize = 0;
        while filled < capacity
            invariant
                filled <= capacity,
                entries@.len() == filled,
            decreases capacity - filled,
        {
            entries.push(Entry::vacant());
            filled = filled + 1;
        }
        MiniHash { entries, placement }
    }

    /// The number of slots. It never changes: every operation takes the
    /// table by shared reference.
    pub fn capacity(&self) -> (slots: usize)
        ensures
            slots == self.spec_capacity(),
            slots > 0,
    {
        proof {
            use_type_invariant(self);
        }
        self.entries.len()
    }

    /// The placement strategy.
    pub fn placement(&self) -> (placement: Placement)
        ensures
            placement == self.spec_placement(),
    {
        self.placement
    }

    /// Installs `value` for `key`, claiming a slot if the key has none yet.
    ///
    /// Zero is refused as a key and as a value. Otherwise the call makes the
    /// accesses of a `SetCall` until that has returned: success, or
    /// `CapacityExhausted` when it met another key in every slot. Which of
    /// the two depends on what the slots hold and on what other threads do
    /// meanwhile, so no more is promised here.
    pub fn set(&self, key: u32, value: u32) -> (outcome: Result<(), TableError>)
        ensures
            outcome == Err::<(), TableError>(TableError::InvalidArgument) <==> (key == 0 || value
                == 0),
    {
        let mut call = match SetCall::begin(self.placement, key, value, self.capacity()) {
            Ok(call) => call,
            Err(error) => {
                return Err(error);
            },
        };
        loop
            invariant
                key != 0,
                value != 0,
                call.well_formed(),
                call@.capacity == self.entries@.len(),
            decreases write_turns_left(call@),
        {
            match call.pending() {
                Pending::Access { index, access } => {
                    let returned = self.entries[index].perform(access);
                    call = call.react(returned);
                },
                Pending::Done { outcome } => {
                    return outcome;
                },
            }
        }
    }

    /// Looks up the value installed for `key`.
    ///
    /// Zero is refused as a key. Otherwise the call makes the accesses of a
    /// `GetCall` until that has returned. A `get` that runs while a `set` for
    /// the same key is between claiming its slot and storing its value finds
    /// the key without a value, and reports that nothing was found.
    pub fn get(&self, key: u32) -> (outcome: Result<Option<u32>, TableError>)
        ensures
            outcome is Err <==> key == 0,
            outcome is Err ==> outcome == Err::<Option<u32>, TableError>(
                TableError::InvalidArgument,
            ),
            outcome matches Ok(Some(value)) ==> value != 0,
    {
        let mut call = match GetCall::begin(self.placement, key, self.capacity()) {
            Ok(call) => call,
            Err(error) => {
                return Err(error);
            },
        };
        loop
            invariant
                key != 0,
                call.well_formed(),
                call@.capacity == self.entries@.len(),
            decreases read_turns_left(call@),
        {
            match call.pending() {
                Pending::Access { index, access } => {
                    let returned = self.entries[index].perform(access);
                    call = call.react(returned);
                },
                Pending::Done { outcome } => {
                    return Ok(outcome);
                },
            }
        }
    }

    /// The index of the first slot that lacks a key or a value, or the
    /// capacity if there is none.
    ///
    /// With sequential placement, and while no `set` is in flight, this is
    /// the number of keys; with hashed placement it is not, since a key may
    /// sit behind a vacant slot. The call makes the accesses of a `LenCall`
    /// until that has returned.
    pub fn len(&self) -> (count: usize)
        ensures
            count <= self.spec_capacity(),
    {
        let mut call = LenCall::begin(self.capacity());
        loop
            invariant
                counter_in_range(call@),
                call@.capacity == self.entries@.len(),
            decreases count_turns_left(call@),
        {
            match call.pending() {
                Pending::Access { index, access } => {
                    let returned = self.entries[index].perform(access);
                    call = call.react(returned);
                },
                Pending::Done { outcome } => {
                    return outcome;
                },
            }
        }
    }

    /// Whether no slot holds a key. The call makes the accesses of an
    /// `EmptyCall` until that has returned.
    pub fn is_empty(&self) -> bool {
        let mut call = EmptyCall::begin(self.capacity());
        loop
            invariant
                checker_in_range(call@),
                call@.capacity == self.entries@.len(),
            decreases check_turns_left(call@),
        {
            match call.pending() {
                Pending::Access { index, access } => {
                    let returned = self.entries[index].perform(access);
                    call = call.react(returned);
                },
                Pending::Done { outcome } => {
                    return outcome;
                },
            }
        }
    }
}

} // verus!
