//! The calls `len` and `is_empty`, run from start to end on slots that
//! nothing else changes, return what the sequential meaning says.

use vstd::prelude::*;
use crate::access::{returned, Slot};
use crate::scan::{
    check_access, check_reaction, check_turns_left, checker_at_start, count_access,
    count_reaction, count_turns_left, counter_at_start, CheckProgress, Checker, CountProgress,
    Counter,
};
use crate::sequential::model::{is_empty_outcome, len_from, len_outcome, unfinished};

verus! {

/// A `len` call after `turns` more accesses on `slots`.
pub open spec fn count_alone(slots: Seq<Slot>, counter: Counter, turns: nat) -> Counter
    decreases turns,
{
    if turns == 0 {
        counter
    } else {
        let before = count_alone(slots, counter, (turns - 1) as nat);
        match count_access(before) {
            Some((index, access)) => Counter {
                progress: count_reaction(before, returned(slots[index], access)),
                ..before
            },
            None => before,
        }
    }
}

/// An `is_empty` call after `turns` more accesses on `slots`.
pub open spec fn check_alone(slots: Seq<Slot>, checker: Checker, turns: nat) -> Checker
    decreases turns,
{
    if turns == 0 {
        checker
    } else {
        let before = check_alone(slots, checker, (turns - 1) as nat);
        match check_access(before) {
            Some((index, access)) => Checker {
                progress: check_reaction(before, returned(slots[index], access)),
                ..before
            },
            None => before,
        }
    }
}

/// A scan that starts behind slots that all have a key and a value ends
/// where the scan from the front ends.
proof fn lemma_len_skips(slots: Seq<Slot>, from: nat)
    requires
        from <= slots.len(),
        forall|i: int| 0 <= i < from ==> !unfinished(slots, i),
    ensures
        len_from(slots, from) == len_outcome(slots),
    decreases from,
{
    if from > 0 {
        lemma_len_skips(slots, (from - 1) as nat);
    }
}

/// How the progress of a `len` call relates to the slots.
spec fn count_on_track(slots: Seq<Slot>, counter: Counter) -> bool {
    &&& counter.capacity == slots.len()
    &&& match counter.progress {
        CountProgress::AtKey { index } => {
            &&& index < slots.len()
            &&& forall|i: int| 0 <= i < index ==> !unfinished(slots, i)
        },
        CountProgress::AtValue { index } => {
            &&& index < slots.len()
            &&& forall|i: int| 0 <= i < index ==> !unfinished(slots, i)
            &&& slots[index as int].key != 0
        },
        CountProgress::Counted { count } => count == len_outcome(slots),
    }
}

/// A `len` call stays on track and uses up its turns.
proof fn lemma_count_alone(slots: Seq<Slot>, turns: nat)
    requires
        slots.len() > 0,
    ensures
        count_on_track(slots, count_alone(slots, counter_at_start(slots.len()), turns)),
        count_access(count_alone(slots, counter_at_start(slots.len()), turns)) is None
            || count_turns_left(count_alone(slots, counter_at_start(slots.len()), turns))
            + turns <= 2 * slots.len(),
    decreases turns,
{
    if turns > 0 {
        lemma_count_alone(slots, (turns - 1) as nat);
        let before = count_alone(slots, counter_at_start(slots.len()), (turns - 1) as nat);
        match before.progress {
            CountProgress::AtKey { index } => {
                lemma_len_skips(slots, index);
            },
            CountProgress::AtValue { index } => {
                lemma_len_skips(slots, index);
                if slots[index as int].value != 0 {
                    lemma_len_skips(slots, index + 1);
                }
            },
            CountProgress::Counted { count } => {},
        }
    }
}

/// A `len` call on slots that nothing else changes has returned what `len`
/// means, after at most two accesses per slot.
pub proof fn undisturbed_len_is_sequential(slots: Seq<Slot>, turns: nat)
    requires
        slots.len() > 0,
        turns >= 2 * slots.len(),
    ensures
        count_alone(slots, counter_at_start(slots.len()), turns).progress == (
        CountProgress::Counted { count: len_outcome(slots) }),
{
    lemma_count_alone(slots, turns);
}

/// How the progress of an `is_empty` call relates to the slots.
spec fn check_on_track(slots: Seq<Slot>, checker: Checker) -> bool {
    &&& checker.capacity == slots.len()
    &&& match checker.progress {
        CheckProgress::AtKey { index } => {
            &&& index < slots.len()
            &&& forall|i: int| 0 <= i < index ==> (#[trigger] slots[i]).key == 0
        },
        CheckProgress::Judged { empty } => empty == is_empty_outcome(slots),
    }
}

/// An `is_empty` call stays on track and uses up its turns.
proof fn lemma_check_alone(slots: Seq<Slot>, turns: nat)
    requires
        slots.len() > 0,
    ensures
        check_on_track(slots, check_alone(slots, checker_at_start(slots.len()), turns)),
        check_access(check_alone(slots, checker_at_start(slots.len()), turns)) is None
            || check_turns_left(check_alone(slots, checker_at_start(slots.len()), turns))
            + turns <= slots.len(),
    decreases turns,
{
    if turns > 0 {
        lemma_check_alone(slots, (turns - 1) as nat);
        let before = check_alone(slots, checker_at_start(slots.len()), (turns - 1) as nat);
        match before.progress {
            CheckProgress::AtKey { index } => {
                if slots[index as int].key != 0 {
                    assert(!is_empty_outcome(slots));
                }
            },
            CheckProgress::Judged { empty } => {},
        }
    }
}

/// An `is_empty` call on slots that nothing else changes has returned what
/// `is_empty` means, after at most one access per slot.
pub proof fn undisturbed_is_empty_is_sequential(slots: Seq<Slot>, turns: nat)
    requires
        slots.len() > 0,
        turns >= slots.len(),
    ensures
        check_alone(slots, checker_at_start(slots.len()), turns).progress == (
        CheckProgress::Judged { empty: is_empty_outcome(slots) }),
{
    lemma_check_alone(slots, turns);
}

} // verus!
