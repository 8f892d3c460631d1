//! Facts about probe paths and searches on which the laws of the table rest.

use vstd::prelude::*;
use crate::access::Slot;
use crate::placement::{probe_index, start_index, Placement};
use crate::probe::{sighting, Sighting};
use crate::sequential::model::{blocked_at, hit_step, landing, placed};

verus! {

/// A key starts probing inside the table.
pub proof fn lemma_start_in_range(placement: Placement, key: u32, capacity: nat)
    requires
        capacity > 0,
    ensures
        start_index(placement, key, capacity) < capacity,
{
    vstd::arithmetic::div_mod::lemma_mod_bound(
        crate::hash::finalizer(key) as int,
        capacity as int,
    );
}

/// Within one round, a probe path runs to the end of the table and then from
/// its beginning.
pub proof fn lemma_probe_unfolds(start: nat, step: nat, capacity: nat)
    requires
        start < capacity,
        step < capacity,
    ensures
        probe_index(start, step, capacity) == if start + step < capacity {
            start + step
        } else {
            (start + step - capacity) as nat
        },
        probe_index(start, step, capacity) < capacity,
{
    if start + step < capacity {
        vstd::arithmetic::div_mod::lemma_small_mod(start + step, capacity);
    } else {
        vstd::arithmetic::div_mod::lemma_small_mod((start + step - capacity) as nat, capacity);
        vstd::arithmetic::div_mod::lemma_mod_sub_multiples_vanish(
            (start + step) as int,
            capacity as int,
        );
    }
}

/// Two different steps of one round visit different slots.
pub proof fn lemma_probe_distinct(start: nat, a: nat, b: nat, capacity: nat)
    requires
        start < capacity,
        a < capacity,
        b < capacity,
        a != b,
    ensures
        probe_index(start, a, capacity) != probe_index(start, b, capacity),
{
    lemma_probe_unfolds(start, a, capacity);
    lemma_probe_unfolds(start, b, capacity);
}

/// The step of the round at which a probe path from `start` visits `index`.
pub open spec fn step_to(start: nat, index: int, capacity: nat) -> nat {
    if index >= start {
        (index - start) as nat
    } else {
        (index + capacity - start) as nat
    }
}

/// One round of a probe path visits every slot.
pub proof fn lemma_probe_reaches(start: nat, index: int, capacity: nat)
    requires
        start < capacity,
        0 <= index < capacity,
    ensures
        step_to(start, index, capacity) < capacity,
        probe_index(start, step_to(start, index, capacity), capacity) == index,
{
    lemma_probe_unfolds(start, step_to(start, index, capacity), capacity);
}

/// What a search returns: the first step that is not blocked, or nothing when
/// every step is blocked.
pub proof fn lemma_hit_step(slots: Seq<Slot>, key: u32, start: nat, from: nat)
    ensures
        match hit_step(slots, key, start, from) {
            Some(step) => {
                &&& from <= step < slots.len()
                &&& !blocked_at(slots, key, start, step)
                &&& forall|j: nat| from <= j < step ==> blocked_at(slots, key, start, j)
            },
            None => forall|j: nat| from <= j < slots.len() ==> blocked_at(slots, key, start, j),
        },
    decreases slots.len() - from,
{
    if from < slots.len() && blocked_at(slots, key, start, from) {
        lemma_hit_step(slots, key, start, from + 1);
    }
}

/// A step that is not blocked, after blocked steps only, is where the search
/// ends.
pub proof fn lemma_hit_step_found(slots: Seq<Slot>, key: u32, start: nat, from: nat, step: nat)
    requires
        from <= step < slots.len(),
        !blocked_at(slots, key, start, step),
        forall|j: nat| from <= j < step ==> blocked_at(slots, key, start, j),
    ensures
        hit_step(slots, key, start, from) == Some(step),
    decreases step - from,
{
    if from < step {
        lemma_hit_step_found(slots, key, start, from + 1, step);
    }
}

/// A search through blocked steps only finds nothing.
pub proof fn lemma_hit_step_none(slots: Seq<Slot>, key: u32, start: nat, from: nat)
    requires
        forall|j: nat| from <= j < slots.len() ==> blocked_at(slots, key, start, j),
    ensures
        hit_step(slots, key, start, from) is None,
    decreases slots.len() - from,
{
    if from < slots.len() {
        lemma_hit_step_none(slots, key, start, from + 1);
    }
}

/// Two tables on which a search sees the same, up to the step where it
/// ends, end the search at the same step.
pub proof fn lemma_hit_step_agrees(
    slots: Seq<Slot>,
    other: Seq<Slot>,
    key: u32,
    start: nat,
    from: nat,
)
    requires
        slots.len() == other.len(),
        match hit_step(slots, key, start, from) {
            Some(step) => forall|j: nat|
                from <= j <= step ==> blocked_at(slots, key, start, j) == blocked_at(
                    other,
                    key,
                    start,
                    j,
                ),
            None => forall|j: nat|
                from <= j < slots.len() ==> blocked_at(slots, key, start, j) == blocked_at(
                    other,
                    key,
                    start,
                    j,
                ),
        },
    ensures
        hit_step(other, key, start, from) == hit_step(slots, key, start, from),
{
    lemma_hit_step(slots, key, start, from);
    match hit_step(slots, key, start, from) {
        Some(step) => {
            lemma_hit_step_found(other, key, start, from, step);
        },
        None => {
            lemma_hit_step_none(other, key, start, from);
        },
    }
}

/// Where a key lands: on a slot of the table that is vacant or its own; and
/// it lands nowhere only if every slot holds another key.
pub proof fn lemma_landing(slots: Seq<Slot>, placement: Placement, key: u32)
    requires
        slots.len() > 0,
    ensures
        match landing(slots, placement, key) {
            Some(index) => {
                &&& 0 <= index < slots.len()
                &&& sighting(slots[index].key, key) != Sighting::Foreign
            },
            None => forall|i: int|
                0 <= i < slots.len() ==> sighting((#[trigger] slots[i]).key, key)
                    == Sighting::Foreign,
        },
{
    let capacity = slots.len();
    let start = start_index(placement, key, capacity);
    lemma_start_in_range(placement, key, capacity);
    lemma_hit_step(slots, key, start, 0);
    match hit_step(slots, key, start, 0) {
        Some(step) => {
            lemma_probe_unfolds(start, step, capacity);
        },
        None => {
            assert forall|i: int| 0 <= i < slots.len() implies sighting(
                (#[trigger] slots[i]).key,
                key,
            ) == Sighting::Foreign by {
                lemma_probe_reaches(start, i, capacity);
                assert(blocked_at(slots, key, start, step_to(start, i, capacity)));
            }
        },
    }
}

/// The step at which a key lands is the step at which its path visits the
/// landing slot.
pub proof fn lemma_landing_step(slots: Seq<Slot>, placement: Placement, key: u32)
    requires
        slots.len() > 0,
        landing(slots, placement, key) is Some,
    ensures
        hit_step(slots, key, start_index(placement, key, slots.len()), 0) == Some(
            step_to(
                start_index(placement, key, slots.len()),
                landing(slots, placement, key).unwrap(),
                slots.len(),
            ),
        ),
{
    let capacity = slots.len();
    let start = start_index(placement, key, capacity);
    lemma_start_in_range(placement, key, capacity);
    lemma_hit_step(slots, key, start, 0);
    let step = hit_step(slots, key, start, 0).unwrap();
    let index = landing(slots, placement, key).unwrap();
    lemma_probe_unfolds(start, step, capacity);
    lemma_probe_reaches(start, index, capacity);
    if step != step_to(start, index, capacity) {
        lemma_probe_distinct(start, step, step_to(start, index, capacity), capacity);
    }
}

/// Writing a key into the slot on which it lands, with any value, keeps
/// every key placed.
pub proof fn lemma_fill_keeps_placed(
    slots: Seq<Slot>,
    placement: Placement,
    target: int,
    filled: Slot,
)
    requires
        slots.len() > 0,
        placed(slots, placement),
        filled.key != 0,
        landing(slots, placement, filled.key) == Some(target),
    ensures
        placed(slots.update(target, filled), placement),
        0 <= target < slots.len(),
{
    let capacity = slots.len();
    let next = slots.update(target, filled);
    lemma_landing(slots, placement, filled.key);
    assert forall|i: int| 0 <= i < next.len() && (#[trigger] next[i]).key != 0 implies landing(
        next,
        placement,
        next[i].key,
    ) == Some(i) by {
        let held = next[i].key;
        let start = start_index(placement, held, capacity);
        lemma_start_in_range(placement, held, capacity);
        if i != target {
            assert(slots[i].key == held);
            assert(landing(slots, placement, held) == Some(i));
        }
        lemma_landing_step(slots, placement, held);
        let step = hit_step(slots, held, start, 0).unwrap();
        lemma_hit_step(slots, held, start, 0);
        assert forall|j: nat| j <= step implies blocked_at(slots, held, start, j) == blocked_at(
            next,
            held,
            start,
            j,
        ) by {
            lemma_probe_unfolds(start, j, capacity);
            lemma_probe_unfolds(start, step, capacity);
            if j != step {
                lemma_probe_distinct(start, j, step, capacity);
            }
        }
        lemma_hit_step_agrees(slots, next, held, start, 0);
    }
}

} // verus!
