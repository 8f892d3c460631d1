//! The calls that walk the slots from the front: `len` and `is_empty`.
//!
//! Like `set` and `get` they name one access at a time and go on from what
//! it returned.

use vstd::prelude::*;
use crate::access::Access;
use crate::call::Pending;

verus! {

/// How far a `len` call has come.
pub enum CountProgress {
    /// It will next load the key of slot `index`.
    AtKey { index: nat },
    /// It found a key in slot `index` and will next load the value there.
    AtValue { index: nat },
    /// It returned `count`.
    Counted { count: nat },
}

/// A `len` call on a table of `capacity` slots.
pub struct Counter {
    pub capacity: nat,
    pub progress: CountProgress,
}

/// A `len` call that has made no access yet.
pub open spec fn counter_at_start(capacity: nat) -> Counter {
    Counter { capacity, progress: CountProgress::AtKey { index: 0 } }
}

/// Whether the slots that a `len` call speaks of lie in its table.
pub open spec fn counter_in_range(counter: Counter) -> bool {
    match counter.progress {
        CountProgress::AtKey { index } => index < counter.capacity,
        CountProgress::AtValue { index } => index < counter.capacity,
        CountProgress::Counted { count } => count <= counter.capacity,
    }
}

/// The access that a `len` call makes next, and the slot it is made on;
/// `None` when the call has returned.
pub open spec fn count_access(counter: Counter) -> Option<(int, Access)> {
    match counter.progress {
        CountProgress::AtKey { index } => Some((index as int, Access::LoadKey)),
        CountProgress::AtValue { index } => Some((index as int, Access::LoadValue)),
        CountProgress::Counted { count } => None,
    }
}

/// How far a `len` call has come once its next access has returned
/// `returned`: a slot without a key or without a value ends the count at its
/// index, and a slot with both sends the call to the next slot, or ends the
/// count at the capacity.
pub open spec fn count_reaction(counter: Counter, returned: u32) -> CountProgress {
    match counter.progress {
        CountProgress::AtKey { index } => if returned == 0 {
            CountProgress::Counted { count: index }
        } else {
            CountProgress::AtValue { index }
        },
        CountProgress::AtValue { index } => if returned == 0 {
            CountProgress::Counted { count: index }
        } else if index + 1 < counter.capacity {
            CountProgress::AtKey { index: index + 1 }
        } else {
            CountProgress::Counted { count: counter.capacity }
        },
        CountProgress::Counted { count } => CountProgress::Counted { count },
    }
}

/// The most accesses that a `len` call still makes before it returns: two
/// per slot that it has not looked at yet.
pub open spec fn count_turns_left(counter: Counter) -> nat {
    match counter.progress {
        CountProgress::AtKey { index } => (2 * (counter.capacity - index)) as nat,
        CountProgress::AtValue { index } => (2 * (counter.capacity - index) - 1) as nat,
        CountProgress::Counted { count } => 0,
    }
}

#[derive(Clone, Copy, Debug, PartialEq, Eq)]
enum CountState {
    AtKey { index: usize },
    AtValue { index: usize },
    Counted { count: usize },
}

/// A `len` call in flight.
#[derive(Clone, Copy, Debug, PartialEq, Eq)]
pub struct LenCall {
    capacity: usize,
    state: CountState,
}

impl LenCall {
    /// The call as the proofs see it.
    pub closed spec fn view(&self) -> Counter {
        Counter {
            capacity: self.capacity as nat,
            progress: match self.state {
                CountState::AtKey { index } => CountProgress::AtKey { index: index as nat },
                CountState::AtValue { index } => CountProgress::AtValue { index: index as nat },
                CountState::Counted { count } => CountProgress::Counted { count: count as nat },
            },
        }
    }

    /// Begins a `len` on a table of `capacity` slots.
    pub fn begin(capacity: usize) -> (call: LenCall)
        requires
            capacity > 0,
        ensures
            call@ == counter_at_start(capacity as nat),
            counter_in_range(call@),
    {
        LenCall { capacity, state: CountState::AtKey { index: 0 } }
    }

    /// What the call asks for next.
    pub fn pending(&self) -> (next: Pending<usize>)
        requires
            counter_in_range(self@),
        ensures
            match next {
                Pending::Access { index, access } => {
                    &&& count_access(self@) == Some((index as int, access))
                    &&& index < self@.capacity
                },
                Pending::Done { outcome } => {
                    &&& self@.progress == (CountProgress::Counted { count: outcome as nat })
                    &&& outcome <= self@.capacity
                },
            },
    {
        match self.state {
            CountState::AtKey { index } => Pending::Access { index, access: Access::LoadKey },
            CountState::AtValue { index } => Pending::Access { index, access: Access::LoadValue },
            CountState::Counted { count } => Pending::Done { outcome: count },
        }
    }

    /// Takes what the pending access returned and moves on. A call that has
    /// returned stays as it is.
    pub fn react(self, returned: u32) -> (next: LenCall)
        requires
            counter_in_range(self@),
        ensures
            counter_in_range(next@),
            next@ == (Counter { progress: count_reaction(self@, returned), ..self@ }),
            count_access(self@) is Some ==> count_turns_left(next@) < count_turns_left(self@),
    {
        let state = match self.state {
            CountState::AtKey { index } => if returned == 0 {
                CountState::Counted { count: index }
            } else {
                CountState::AtValue { index }
            },
            CountState::AtValue { index } => if returned == 0 {
                CountState::Counted { count: index }
            } else if index + 1 < self.capacity {
                CountState::AtKey { index: index + 1 }
            } else {
                CountState::Counted { count: self.capacity }
            },
            CountState::Counted { count } => CountState::Counted { count },
        };
        LenCall { capacity: self.capacity, state }
    }
}

/// How far an `is_empty` call has come.
pub enum CheckProgress {
    /// It will next load the key of slot `index`.
    AtKey { index: nat },
    /// It returned `empty`.
    Judged { empty: bool },
}

/// An `is_empty` call on a table of `capacity` slots.
pub struct Checker {
    pub capacity: nat,
    pub progress: CheckProgress,
}

/// An `is_empty` call that has made no access yet.
pub open spec fn checker_at_start(capacity: nat) -> Checker {
    Checker { capacity, progress: CheckProgress::AtKey { index: 0 } }
}

/// Whether the slots that an `is_empty` call speaks of lie in its table.
pub open spec fn checker_in_range(checker: Checker) -> bool {
    match checker.progress {
        CheckProgress::AtKey { index } => index < checker.capacity,
        CheckProgress::Judged { empty } => true,
    }
}

/// The access that an `is_empty` call makes next, and the slot it is made
/// on; `None` when the call has returned.
pub open spec fn check_access(checker: Checker) -> Option<(int, Access)> {
    match checker.progress {
        CheckProgress::AtKey { index } => Some((index as int, Access::LoadKey)),
        CheckProgress::Judged { empty } => None,
    }
}

/// How far an `is_empty` call has come once its next access has returned
/// `returned`: a key ends the call with the answer that the table is not
/// empty, and a slot without a key sends it to the next slot, or ends it with
/// the answer that the table is empty.
pub open spec fn check_reaction(checker: Checker, returned: u32) -> CheckProgress {
    match checker.progress {
        CheckProgress::AtKey { index } => if returned != 0 {
            CheckProgress::Judged { empty: false }
        } else if index + 1 < checker.capacity {
            CheckProgress::AtKey { index: index + 1 }
        } else {
            CheckProgress::Judged { empty: true }
        },
        CheckProgress::Judged { empty } => CheckProgress::Judged { empty },
    }
}

/// The most accesses that an `is_empty` call still makes before it returns:
/// one per slot that it has not looked at yet.
pub open spec fn check_turns_left(checker: Checker) -> nat {
    match checker.progress {
        CheckProgress::AtKey { index } => (checker.capacity - index) as nat,
        CheckProgress::Judged { empty } => 0,
    }
}

#[derive(Clone, Copy, Debug, PartialEq, Eq)]
enum CheckState {
    AtKey { index: usize },
    Judged { empty: bool },
}

/// An `is_empty` call in flight.
#[derive(Clone, Copy, Debug, PartialEq, Eq)]
pub struct EmptyCall {
    capacity: usize,
    state: CheckState,
}

impl EmptyCall {
    /// The call as the proofs see it.
    pub closed spec fn view(&self) -> Checker {
        Checker {
            capacity: self.capacity as nat,
            progress: match self.state {
                CheckState::AtKey { index } => CheckProgress::AtKey { index: index as nat },
                CheckState::Judged { empty } => CheckProgress::Judged { empty },
            },
        }
    }

    /// Begins an `is_empty` on a table of `capacity` slots.
    pub fn begin(capacity: usize) -> (call: EmptyCall)
        requires
            capacity > 0,
        ensures
            call@ == checker_at_start(capacity as nat),
            checker_in_range(call@),
    {
        EmptyCall { capacity, state: CheckState::AtKey { index: 0 } }
    }

    /// What the call asks for next.
    pub fn pending(&self) -> (next: Pending<bool>)
        requires
            checker_in_range(self@),
        ensures
            match next {
                Pending::Access { index, access } => {
                    &&& check_access(self@) == Some((index as int, access))
                    &&& index < self@.capacity
                },
                Pending::Done { outcome } => self@.progress == (CheckProgress::Judged {
                    empty: outcome,
                }),
            },
    {
        match self.state {
            CheckState::AtKey { index } => Pending::Access { index, access: Access::LoadKey },
            CheckState::Judged { empty } => Pending::Done { outcome: empty },
        }
    }

    /// Takes what the pending access returned and moves on. A call that has
    /// returned stays as it is.
    pub fn react(self, returned: u32) -> (next: EmptyCall)
        requires
            checker_in_range(self@),
        ensures
            checker_in_range(next@),
            next@ == (Checker { progress: check_reaction(self@, returned), ..self@ }),
            check_access(self@) is Some ==> check_turns_left(next@) < check_turns_left(self@),
    {
        let state = match self.state {
            CheckState::AtKey { index } => if returned != 0 {
                CheckState::Judged { empty: false }
            } else if index + 1 < self.capacity {
                CheckState::AtKey { index: index + 1 }
            } else {
                CheckState::Judged { empty: true }
            },
            CheckState::Judged { empty } => CheckState::Judged { empty },
        };
        EmptyCall { capacity: self.capacity, state }
    }
}

} // verus!
