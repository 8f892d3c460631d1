//! A call in flight: how far it has come, which access it makes next, and
//! how it goes on from what the access returned.
//!
//! A call never looks at the table itself. It names one access at a time and
//! is told what that access returned; whoever drives it makes the access.
//! `MiniHash` drives a call against its atomics, and the proofs of
//! `concurrent` drive any number of calls against the slots as plain values.

use vstd::prelude::*;
use crate::access::Access;
use crate::error::TableError;
use crate::placement::{
    lemma_probe_advance, next_index, probe_index, probe_start, start_index, Placement,
};
use crate::probe::{classify, present, sighting, stored, Sighting};

verus! {

/// How far a `set` call has come.
pub enum WriteProgress {
    /// It will next load the key of the slot at probe step `step`.
    Probing { step: nat },
    /// It saw the slot at probe step `step` vacant and will next try to claim
    /// it.
    Claiming { step: nat },
    /// It found its key in slot `index`, or put it there, and will next store
    /// its value there.
    Storing { index: int },
    /// It stored its value in slot `index` and returned success.
    Stored { index: int },
    /// It saw another key in every slot and returned that the capacity is
    /// exhausted.
    Exhausted,
}

/// A `set(key, value)` call on a table of `capacity` slots, where `key`
/// starts probing at slot `start`.
pub struct Writer {
    pub key: u32,
    pub value: u32,
    pub start: nat,
    pub capacity: nat,
    pub progress: WriteProgress,
}

/// How far a `get` call has come.
pub enum ReadProgress {
    /// It will next load the key of the slot at probe step `step`.
    Seeking { step: nat },
    /// It found its key in slot `index` and will next load the value there.
    Reading { index: int },
    /// It returned `found`.
    Returned { found: Option<u32> },
}

/// A `get(key)` call on a table of `capacity` slots, where `key` starts
/// probing at slot `start`.
pub struct Reader {
    pub key: u32,
    pub start: nat,
    pub capacity: nat,
    pub progress: ReadProgress,
}

/// A `set(key, value)` call that has made no access yet.
pub open spec fn writer_at_start(
    placement: Placement,
    key: u32,
    value: u32,
    capacity: nat,
) -> Writer {
    Writer {
        key,
        value,
        start: start_index(placement, key, capacity),
        capacity,
        progress: WriteProgress::Probing { step: 0 },
    }
}

/// A `get(key)` call that has made no access yet.
pub open spec fn reader_at_start(placement: Placement, key: u32, capacity: nat) -> Reader {
    Reader {
        key,
        start: start_index(placement, key, capacity),
        capacity,
        progress: ReadProgress::Seeking { step: 0 },
    }
}

/// Whether the steps and slots that a `set` call speaks of lie in its table.
pub open spec fn writer_in_range(writer: Writer) -> bool {
    &&& writer.start < writer.capacity
    &&& match writer.progress {
        WriteProgress::Probing { step } => step < writer.capacity,
        WriteProgress::Claiming { step } => step < writer.capacity,
        WriteProgress::Storing { index } => 0 <= index < writer.capacity,
        WriteProgress::Stored { index } => 0 <= index < writer.capacity,
        WriteProgress::Exhausted => true,
    }
}

/// Whether the steps and slots that a `get` call speaks of lie in its table,
/// and what it returned is no value or a value other than zero.
pub open spec fn reader_in_range(reader: Reader) -> bool {
    &&& reader.start < reader.capacity
    &&& match reader.progress {
        ReadProgress::Seeking { step } => step < reader.capacity,
        ReadProgress::Reading { index } => 0 <= index < reader.capacity,
        ReadProgress::Returned { found } => found != Some(0u32),
    }
}

/// The access that a `set` call makes next, and the slot it is made on;
/// `None` when the call has returned.
pub open spec fn write_access(writer: Writer) -> Option<(int, Access)> {
    match writer.progress {
        WriteProgress::Probing { step } => Some(
            (probe_index(writer.start, step, writer.capacity) as int, Access::LoadKey),
        ),
        WriteProgress::Claiming { step } => Some(
            (
                probe_index(writer.start, step, writer.capacity) as int,
                Access::ClaimKey { key: writer.key },
            ),
        ),
        WriteProgress::Storing { index } => Some(
            (index, Access::StoreValue { value: writer.value }),
        ),
        WriteProgress::Stored { index } => None,
        WriteProgress::Exhausted => None,
    }
}

/// Where a `set` call goes from probe step `step` when the slot there holds
/// another key: to the next step, or to failure after a full round.
pub open spec fn write_onward(step: nat, capacity: nat) -> WriteProgress {
    if step + 1 < capacity {
        WriteProgress::Probing { step: step + 1 }
    } else {
        WriteProgress::Exhausted
    }
}

/// How far a `set` call has come once its next access has returned
/// `returned`.
///
/// A loaded key that is the call's own sends it to store its value; zero
/// sends it to claim the slot; another key sends it onward. After a claim,
/// zero means that the claim succeeded and the call's own key means that a
/// concurrent `set` for the same key made it: both send the call to store
/// its value, and another key sends it onward.
pub open spec fn write_reaction(writer: Writer, returned: u32) -> WriteProgress {
    match writer.progress {
        WriteProgress::Probing { step } => match sighting(returned, writer.key) {
            Sighting::Owned => WriteProgress::Storing {
                index: probe_index(writer.start, step, writer.capacity) as int,
            },
            Sighting::Vacant => WriteProgress::Claiming { step },
            Sighting::Foreign => write_onward(step, writer.capacity),
        },
        WriteProgress::Claiming { step } => match sighting(returned, writer.key) {
            Sighting::Foreign => write_onward(step, writer.capacity),
            _ => WriteProgress::Storing {
                index: probe_index(writer.start, step, writer.capacity) as int,
            },
        },
        WriteProgress::Storing { index } => WriteProgress::Stored { index },
        WriteProgress::Stored { index } => WriteProgress::Stored { index },
        WriteProgress::Exhausted => WriteProgress::Exhausted,
    }
}

/// What a `set` call has returned, if it has.
pub open spec fn write_outcome(progress: WriteProgress) -> Option<Result<(), TableError>> {
    match progress {
        WriteProgress::Stored { index } => Some(Ok(())),
        WriteProgress::Exhausted => Some(Err(TableError::CapacityExhausted)),
        _ => None,
    }
}

/// The most accesses that a `set` call still makes before it returns: two
/// per slot that it has not probed yet, and one to store.
pub open spec fn write_turns_left(writer: Writer) -> nat {
    match writer.progress {
        WriteProgress::Probing { step } => (2 * (writer.capacity - step) + 1) as nat,
        WriteProgress::Claiming { step } => (2 * (writer.capacity - step)) as nat,
        WriteProgress::Storing { index } => 1,
        WriteProgress::Stored { index } => 0,
        WriteProgress::Exhausted => 0,
    }
}

/// The access that a `get` call makes next, and the slot it is made on;
/// `None` when the call has returned.
pub open spec fn read_access(reader: Reader) -> Option<(int, Access)> {
    match reader.progress {
        ReadProgress::Seeking { step } => Some(
            (probe_index(reader.start, step, reader.capacity) as int, Access::LoadKey),
        ),
        ReadProgress::Reading { index } => Some((index, Access::LoadValue)),
        ReadProgress::Returned { found } => None,
    }
}

/// How far a `get` call has come once its next access has returned
/// `returned`.
///
/// A loaded key that is the call's own sends it to load the value; zero ends
/// the search at once, with nothing found; another key sends it to the next
/// step, or ends the search after a full round. A loaded value of zero means
/// that no value was stored yet, and counts as nothing found.
pub open spec fn read_reaction(reader: Reader, returned: u32) -> ReadProgress {
    match reader.progress {
        ReadProgress::Seeking { step } => match sighting(returned, reader.key) {
            Sighting::Owned => ReadProgress::Reading {
                index: probe_index(reader.start, step, reader.capacity) as int,
            },
            Sighting::Vacant => ReadProgress::Returned { found: None },
            Sighting::Foreign => if step + 1 < reader.capacity {
                ReadProgress::Seeking { step: step + 1 }
            } else {
                ReadProgress::Returned { found: None }
            },
        },
        ReadProgress::Reading { index } => ReadProgress::Returned { found: stored(returned) },
        ReadProgress::Returned { found } => ReadProgress::Returned { found },
    }
}

/// The most accesses that a `get` call still makes before it returns: one
/// per slot that it has not probed yet, and one to load the value.
pub open spec fn read_turns_left(reader: Reader) -> nat {
    match reader.progress {
        ReadProgress::Seeking { step } => (reader.capacity - step + 1) as nat,
        ReadProgress::Reading { index } => 1,
        ReadProgress::Returned { found } => 0,
    }
}

/// What a call asks of whoever drives it.
#[derive(Debug, PartialEq, Eq)]
pub enum Pending<T> {
    /// Make `access` on slot `index` and report what it returned.
    Access { index: usize, access: Access },
    /// Nothing more: the call has returned `outcome`.
    Done { outcome: T },
}

#[derive(Clone, Copy, Debug, PartialEq, Eq)]
enum WriteState {
    Probing { step: usize, index: usize },
    Claiming { step: usize, index: usize },
    Storing { index: usize },
    Stored { index: usize },
    Exhausted,
}

/// A `set` call in flight.
#[derive(Clone, Copy, Debug, PartialEq, Eq)]
pub struct SetCall {
    key: u32,
    value: u32,
    start: usize,
    capacity: usize,
    state: WriteState,
}

impl SetCall {
    /// The call as the proofs see it.
    pub closed spec fn view(&self) -> Writer {
        Writer {
            key: self.key,
            value: self.value,
            start: self.start as nat,
            capacity: self.capacity as nat,
            progress: match self.state {
                WriteState::Probing { step, index } => WriteProgress::Probing { step: step as nat },
                WriteState::Claiming { step, index } => WriteProgress::Claiming {
                    step: step as nat,
                },
                WriteState::Storing { index } => WriteProgress::Storing { index: index as int },
                WriteState::Stored { index } => WriteProgress::Stored { index: index as int },
                WriteState::Exhausted => WriteProgress::Exhausted,
            },
        }
    }

    /// Whether the call speaks of steps and slots of its table only, and
    /// holds the slot of its step.
    pub closed spec fn well_formed(&self) -> bool {
        &&& writer_in_range(self@)
        &&& match self.state {
            WriteState::Probing { step, index } => index == probe_index(
                self.start as nat,
                step as nat,
                self.capacity as nat,
            ),
            WriteState::Claiming { step, index } => index == probe_index(
                self.start as nat,
                step as nat,
                self.capacity as nat,
            ),
            _ => true,
        }
    }

    /// Begins a `set(key, value)` on a table of `capacity` slots. Zero is
    /// refused as a key and as a value.
    pub fn begin(placement: Placement, key: u32, value: u32, capacity: usize) -> (begun: Result<
        SetCall,
        TableError,
    >)
        requires
            capacity > 0,
        ensures
            begun is Err <==> key == 0 || value == 0,
            begun matches Err(error) ==> error == TableError::InvalidArgument,
            begun matches Ok(call) ==> {
                &&& call@ == writer_at_start(placement, key, value, capacity as nat)
                &&& call.well_formed()
            },
    {
        if key == 0 || value == 0 {
            return Err(TableError::InvalidArgument);
        }
        let start = probe_start(placement, key, capacity);
        proof {
            vstd::arithmetic::div_mod::lemma_small_mod(start as nat, capacity as nat);
        }
        let state = WriteState::Probing { step: 0, index: start };
        Ok(SetCall { key, value, start, capacity, state })
    }

    /// What the call asks for next.
    pub fn pending(&self) -> (next: Pending<Result<(), TableError>>)
        requires
            self.well_formed(),
        ensures
            match next {
                Pending::Access { index, access } => {
                    &&& write_access(self@) == Some((index as int, access))
                    &&& index < self@.capacity
                },
                Pending::Done { outcome } => {
                    &&& write_access(self@) is None
                    &&& write_outcome(self@.progress) == Some(outcome)
                },
            },
    {
        match self.state {
            WriteState::Probing { step, index } => Pending::Access {
                index,
                access: Access::LoadKey,
            },
            WriteState::Claiming { step, index } => Pending::Access {
                index,
                access: Access::ClaimKey { key: self.key },
            },
            WriteState::Storing { index } => Pending::Access {
                index,
                access: Access::StoreValue { value: self.value },
            },
            WriteState::Stored { index } => Pending::Done { outcome: Ok(()) },
            WriteState::Exhausted => Pending::Done {
                outcome: Err(TableError::CapacityExhausted),
            },
        }
    }

    /// Takes what the pending access returned and moves on. A call that has
    /// returned stays as it is.
    pub fn react(self, returned: u32) -> (next: SetCall)
        requires
            self.well_formed(),
        ensures
            next.well_formed(),
            next@ == (Writer { progress: write_reaction(self@, returned), ..self@ }),
            write_access(self@) is Some ==> write_turns_left(next@) < write_turns_left(self@),
    {
        let state = match self.state {
            WriteState::Probing { step, index } => match classify(returned, self.key) {
                Sighting::Owned => WriteState::Storing { index },
                Sighting::Vacant => WriteState::Claiming { step, index },
                Sighting::Foreign => self.onward(step, index),
            },
            WriteState::Claiming { step, index } => match classify(returned, self.key) {
                Sighting::Foreign => self.onward(step, index),
                _ => WriteState::Storing { index },
            },
            WriteState::Storing { index } => WriteState::Stored { index },
            WriteState::Stored { index } => WriteState::Stored { index },
            WriteState::Exhausted => WriteState::Exhausted,
        };
        SetCall { state, ..self }
    }

    fn onward(&self, step: usize, index: usize) -> (state: WriteState)
        requires
            step < self.capacity,
            self.start < self.capacity,
            index == probe_index(self.start as nat, step as nat, self.capacity as nat),
        ensures
            (SetCall { state, ..*self })@.progress == write_onward(
                step as nat,
                self.capacity as nat,
            ),
            (SetCall { state, ..*self }).well_formed(),
    {
        proof {
            lemma_probe_advance(self.start as nat, step as nat, self.capacity as nat);
        }
        if step + 1 < self.capacity {
            WriteState::Probing { step: step + 1, index: next_index(index, self.capacity) }
        } else {
            WriteState::Exhausted
        }
    }
}

#[derive(Clone, Copy, Debug, PartialEq, Eq)]
enum ReadState {
    Seeking { step: usize, index: usize },
    Reading { index: usize },
    Returned { found: Option<u32> },
}

/// A `get` call in flight.
#[derive(Clone, Copy, Debug, PartialEq, Eq)]
pub struct GetCall {
    key: u32,
    start: usize,
    capacity: usize,
    state: ReadState,
}

impl GetCall {
    /// The call as the proofs see it.
    pub closed spec fn view(&self) -> Reader {
        Reader {
            key: self.key,
            start: self.start as nat,
            capacity: self.capacity as nat,
            progress: match self.state {
                ReadState::Seeking { step, index } => ReadProgress::Seeking { step: step as nat },
                ReadState::Reading { index } => ReadProgress::Reading { index: index as int },
                ReadState::Returned { found } => ReadProgress::Returned { found },
            },
        }
    }

    /// Whether the call speaks of steps and slots of its table only, and
    /// holds the slot of its step.
    pub closed spec fn well_formed(&self) -> bool {
        &&& reader_in_range(self@)
        &&& match self.state {
            ReadState::Seeking { step, index } => index == probe_index(
                self.start as nat,
                step as nat,
                self.capacity as nat,
            ),
            _ => true,
        }
    }

    /// Begins a `get(key)` on a table of `capacity` slots. Zero is refused
    /// as a key.
    pub fn begin(placement: Placement, key: u32, capacity: usize) -> (begun: Result<
        GetCall,
        TableError,
    >)
        requires
            capacity > 0,
        ensures
            begun is Err <==> key == 0,
            begun matches Err(error) ==> error == TableError::InvalidArgument,
            begun matches Ok(call) ==> {
                &&& call@ == reader_at_start(placement, key, capacity as nat)
                &&& call.well_formed()
            },
    {
        if key == 0 {
            return Err(TableError::InvalidArgument);
        }
        let start = probe_start(placement, key, capacity);
        proof {
            vstd::arithmetic::div_mod::lemma_small_mod(start as nat, capacity as nat);
        }
        let state = ReadState::Seeking { step: 0, index: start };
        Ok(GetCall { key, start, capacity, state })
    }

    /// What the call asks for next.
    pub fn pending(&self) -> (next: Pending<Option<u32>>)
        requires
            self.well_formed(),
        ensures
            match next {
                Pending::Access { index, access } => {
                    &&& read_access(self@) == Some((index as int, access))
                    &&& index < self@.capacity
                },
                Pending::Done { outcome } => {
                    &&& self@.progress == (ReadProgress::Returned { found: outcome })
                    &&& outcome != Some(0u32)
                },
            },
    {
        match self.state {
            ReadState::Seeking { step, index } => Pending::Access {
                index,
                access: Access::LoadKey,
            },
            ReadState::Reading { index } => Pending::Access { index, access: Access::LoadValue },
            ReadState::Returned { found } => Pending::Done { outcome: found },
        }
    }

    /// Takes what the pending access returned and moves on. A call that has
    /// returned stays as it is.
    pub fn react(self, returned: u32) -> (next: GetCall)
        requires
            self.well_formed(),
        ensures
            next.well_formed(),
            next@ == (Reader { progress: read_reaction(self@, returned), ..self@ }),
            read_access(self@) is Some ==> read_turns_left(next@) < read_turns_left(self@),
    {
        let state = match self.state {
            ReadState::Seeking { step, index } => match classify(returned, self.key) {
                Sighting::Owned => ReadState::Reading { index },
                Sighting::Vacant => ReadState::Returned { found: None },
                Sighting::Foreign => {
                    proof {
                        lemma_probe_advance(
                            self.start as nat,
                            step as nat,
                            self.capacity as nat,
                        );
                    }
                    if step + 1 < self.capacity {
                        ReadState::Seeking {
                            step: step + 1,
                            index: next_index(index, self.capacity),
                        }
                    } else {
                        ReadState::Returned { found: None }
                    }
                },
            },
            ReadState::Reading { index } => ReadState::Returned { found: present(returned) },
            ReadState::Returned { found } => ReadState::Returned { found },
        };
        GetCall { state, ..self }
    }
}

} // verus!
