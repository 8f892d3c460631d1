//! What holds of the table when its operations run one after another.
//!
//! Every law here is stated over the slots as plain values (see `model`): it
//! holds of a table that one thread works on alone, or that threads work on
//! in turn.

use vstd::prelude::*;
use crate::access::Slot;
use crate::error::TableError;
use crate::placement::{start_index, Placement};
use crate::sequential::counting::{lemma_keys_are_bound, lemma_vacancy};
use crate::sequential::model::{
    after_set, binds, blocked_at, contents, fresh, get_outcome, hit_step, is_empty_outcome,
    landing, len_from, len_outcome, lookup, occupied, replay, set_outcome, settled, unfinished,
};
use crate::sequential::search::{
    lemma_fill_keeps_placed, lemma_hit_step, lemma_hit_step_found, lemma_landing,
    lemma_landing_step, lemma_probe_distinct, lemma_probe_unfolds, lemma_start_in_range,
};

verus! {

/// A new table is settled and holds nothing.
pub proof fn fresh_is_empty(capacity: nat, placement: Placement)
    requires
        capacity > 0,
    ensures
        settled(fresh(capacity), placement),
        contents(fresh(capacity)) == Map::<u32, u32>::empty(),
        fresh(capacity).len() == capacity,
{
    assert(contents(fresh(capacity)) =~= Map::<u32, u32>::empty());
}

/// `set` succeeds exactly when some slot is vacant or already holds the key;
/// otherwise it reports that the capacity is exhausted and changes nothing.
pub proof fn set_succeeds_iff_room(slots: Seq<Slot>, placement: Placement, key: u32, value: u32)
    requires
        slots.len() > 0,
        key != 0,
        value != 0,
    ensures
        set_outcome(slots, placement, key, value) is Ok <==> exists|i: int|
            0 <= i < slots.len() && ((#[trigger] slots[i]).key == 0 || slots[i].key == key),
        set_outcome(slots, placement, key, value) is Err ==> {
            &&& set_outcome(slots, placement, key, value) == Err::<(), TableError>(
                TableError::CapacityExhausted,
            )
            &&& after_set(slots, placement, key, value) == slots
        },
{
    lemma_landing(slots, placement, key);
    if landing(slots, placement, key) is Some {
        let index = landing(slots, placement, key).unwrap();
        assert(slots[index].key == 0 || slots[index].key == key);
    }
}

/// `set` keeps the table settled.
pub proof fn set_keeps_settled(slots: Seq<Slot>, placement: Placement, key: u32, value: u32)
    requires
        settled(slots, placement),
    ensures
        settled(after_set(slots, placement, key, value), placement),
        after_set(slots, placement, key, value).len() == slots.len(),
{
    if set_outcome(slots, placement, key, value) is Ok {
        let target = landing(slots, placement, key).unwrap();
        lemma_fill_keeps_placed(slots, placement, target, Slot { key, value });
    }
}

/// On a settled table `get` answers as a map lookup would.
pub proof fn get_reads_contents(slots: Seq<Slot>, placement: Placement, key: u32)
    requires
        settled(slots, placement),
        key != 0,
    ensures
        get_outcome(slots, placement, key) == Ok::<Option<u32>, TableError>(
            lookup(contents(slots), key),
        ),
{
    lemma_landing(slots, placement, key);
    if contents(slots).contains_key(key) {
        let chosen = choose|i: int| binds(slots, i, key);
        assert(slots[chosen].key == key);
        assert(landing(slots, placement, key) == Some(chosen));
    } else {
        if landing(slots, placement, key) is Some {
            let index = landing(slots, placement, key).unwrap();
            if slots[index].key == key {
                assert(slots[index].value != 0);
                assert(binds(slots, index, key));
            }
        }
    }
}

/// On a settled table a successful `set` is a map insertion: the key is
/// bound to the new value and every other key keeps what it had.
pub proof fn set_inserts(slots: Seq<Slot>, placement: Placement, key: u32, value: u32)
    requires
        settled(slots, placement),
        set_outcome(slots, placement, key, value) is Ok,
    ensures
        contents(after_set(slots, placement, key, value)) == contents(slots).insert(key, value),
{
    let target = landing(slots, placement, key).unwrap();
    let next = after_set(slots, placement, key, value);
    lemma_landing(slots, placement, key);
    set_keeps_settled(slots, placement, key, value);
    assert(binds(next, target, key));
    assert forall|other: u32| other != key implies (contents(next).contains_key(other)
        <==> contents(slots).contains_key(other)) by {
        if contents(next).contains_key(other) {
            let i = choose|i: int| binds(next, i, other);
            assert(binds(slots, i, other));
        }
        if contents(slots).contains_key(other) {
            let i = choose|i: int| binds(slots, i, other);
            assert(binds(next, i, other));
        }
    }
    assert forall|bound: u32| contents(next).contains_key(bound) implies #[trigger] contents(
        next,
    )[bound] == contents(slots).insert(key, value)[bound] by {
        let i = choose|i: int| binds(next, i, bound);
        assert(next[i].key == bound);
        assert(landing(next, placement, bound) == Some(i));
        if bound != key {
            let j = choose|j: int| binds(slots, j, bound);
            assert(binds(next, j, bound));
            assert(next[j].key == bound);
            assert(landing(next, placement, bound) == Some(j));
        }
    }
    assert(contents(next) =~= contents(slots).insert(key, value));
}

/// Round trip: when `set(key, value)` succeeds, a `get(key)` that follows it
/// returns `value`.
pub proof fn round_trip(slots: Seq<Slot>, placement: Placement, key: u32, value: u32)
    requires
        slots.len() > 0,
        set_outcome(slots, placement, key, value) is Ok,
    ensures
        get_outcome(after_set(slots, placement, key, value), placement, key) == Ok::<
            Option<u32>,
            TableError,
        >(Some(value)),
{
    let capacity = slots.len();
    let start = start_index(placement, key, capacity);
    let next = after_set(slots, placement, key, value);
    lemma_start_in_range(placement, key, capacity);
    lemma_landing(slots, placement, key);
    lemma_hit_step(slots, key, start, 0);
    let step = hit_step(slots, key, start, 0).unwrap();
    assert forall|j: nat| j < step implies blocked_at(next, key, start, j) by {
        lemma_probe_unfolds(start, j, capacity);
        lemma_probe_unfolds(start, step, capacity);
        lemma_probe_distinct(start, j, step, capacity);
        assert(blocked_at(slots, key, start, j));
    }
    lemma_hit_step_found(next, key, start, 0, step);
}

/// Absence: `get` finds nothing for a key that no slot holds.
pub proof fn absence(slots: Seq<Slot>, placement: Placement, key: u32)
    requires
        slots.len() > 0,
        key != 0,
        forall|i: int| 0 <= i < slots.len() ==> (#[trigger] slots[i]).key != key,
    ensures
        get_outcome(slots, placement, key) == Ok::<Option<u32>, TableError>(None),
{
    lemma_landing(slots, placement, key);
}

/// Overwrite: when `set(key, first)` succeeds, `set(key, second)` succeeds
/// after it, on the same slot, and a `get(key)` then returns `second`.
pub proof fn overwrite(slots: Seq<Slot>, placement: Placement, key: u32, first: u32, second: u32)
    requires
        slots.len() > 0,
        set_outcome(slots, placement, key, first) is Ok,
        second != 0,
    ensures
        set_outcome(after_set(slots, placement, key, first), placement, key, second) is Ok,
        landing(after_set(slots, placement, key, first), placement, key) == landing(
            slots,
            placement,
            key,
        ),
        get_outcome(
            after_set(after_set(slots, placement, key, first), placement, key, second),
            placement,
            key,
        ) == Ok::<Option<u32>, TableError>(Some(second)),
{
    let once = after_set(slots, placement, key, first);
    round_trip(slots, placement, key, first);
    lemma_landing(slots, placement, key);
    lemma_landing(once, placement, key);
    round_trip(once, placement, key, second);
    let capacity = slots.len();
    let start = start_index(placement, key, capacity);
    lemma_start_in_range(placement, key, capacity);
    lemma_hit_step(slots, key, start, 0);
    let step = hit_step(slots, key, start, 0).unwrap();
    assert forall|j: nat| j < step implies blocked_at(once, key, start, j) by {
        lemma_probe_unfolds(start, j, capacity);
        lemma_probe_unfolds(start, step, capacity);
        lemma_probe_distinct(start, j, step, capacity);
        assert(blocked_at(slots, key, start, j));
    }
    lemma_hit_step_found(once, key, start, 0, step);
}

/// Exhaustion: when every slot holds a key other than `key`, `set` reports
/// that the capacity is exhausted and leaves every slot as it was.
pub proof fn exhaustion(slots: Seq<Slot>, placement: Placement, key: u32, value: u32)
    requires
        slots.len() > 0,
        key != 0,
        value != 0,
        forall|i: int|
            0 <= i < slots.len() ==> (#[trigger] slots[i]).key != 0 && slots[i].key != key,
    ensures
        set_outcome(slots, placement, key, value) == Err::<(), TableError>(
            TableError::CapacityExhausted,
        ),
        after_set(slots, placement, key, value) == slots,
{
    lemma_landing(slots, placement, key);
}

/// A `set`, whether it succeeds or fails, changes what `get` returns for no
/// other key.
pub proof fn set_leaves_other_keys(
    slots: Seq<Slot>,
    placement: Placement,
    key: u32,
    value: u32,
    other: u32,
)
    requires
        settled(slots, placement),
        other != key,
    ensures
        get_outcome(after_set(slots, placement, key, value), placement, other) == get_outcome(
            slots,
            placement,
            other,
        ),
{
    if other != 0 && set_outcome(slots, placement, key, value) is Ok {
        set_keeps_settled(slots, placement, key, value);
        set_inserts(slots, placement, key, value);
        get_reads_contents(slots, placement, other);
        get_reads_contents(after_set(slots, placement, key, value), placement, other);
    }
}

/// A zero key or a zero value is refused, and the table stays as it was.
pub proof fn zero_is_refused(slots: Seq<Slot>, placement: Placement, key: u32, value: u32)
    requires
        key == 0 || value == 0,
    ensures
        set_outcome(slots, placement, key, value) == Err::<(), TableError>(
            TableError::InvalidArgument,
        ),
        after_set(slots, placement, key, value) == slots,
        key == 0 ==> get_outcome(slots, placement, key) == Err::<Option<u32>, TableError>(
            TableError::InvalidArgument,
        ),
{
}

/// A settled table binds at most as many keys as it has slots, and `set`
/// succeeds exactly when the key is bound already or fewer keys than slots
/// are bound.
pub proof fn set_succeeds_iff_not_full(
    slots: Seq<Slot>,
    placement: Placement,
    key: u32,
    value: u32,
)
    requires
        settled(slots, placement),
        key != 0,
        value != 0,
    ensures
        contents(slots).dom().finite(),
        contents(slots).dom().len() <= slots.len(),
        set_outcome(slots, placement, key, value) is Ok <==> contents(slots).contains_key(key)
            || contents(slots).dom().len() < slots.len(),
{
    set_succeeds_iff_room(slots, placement, key, value);
    lemma_keys_are_bound(slots, placement);
    lemma_vacancy(slots, slots.len());
    if contents(slots).contains_key(key) {
        let i = choose|i: int| binds(slots, i, key);
        assert(slots[i].key == key);
    }
    if set_outcome(slots, placement, key, value) is Ok {
        let i = choose|i: int|
            0 <= i < slots.len() && ((#[trigger] slots[i]).key == 0 || slots[i].key == key);
        if slots[i].key == key {
            assert(binds(slots, i, key));
        }
    }
}

/// `is_empty` holds of a settled table exactly when it binds no key.
pub proof fn is_empty_iff_no_keys(slots: Seq<Slot>, placement: Placement)
    requires
        settled(slots, placement),
    ensures
        is_empty_outcome(slots) <==> contents(slots) == Map::<u32, u32>::empty(),
{
    if is_empty_outcome(slots) {
        assert forall|key: u32| !contents(slots).contains_key(key) by {
            if contents(slots).contains_key(key) {
                let i = choose|i: int| binds(slots, i, key);
                assert(slots[i].key == key);
            }
        }
        assert(contents(slots) =~= Map::<u32, u32>::empty());
    } else {
        let i = choose|i: int| 0 <= i < slots.len() && (#[trigger] slots[i]).key != 0;
        assert(binds(slots, i, slots[i].key));
        assert(contents(slots).contains_key(slots[i].key));
    }
}

/// With sequential placement the keys fill the slots from the front with no
/// gap.
pub proof fn lemma_sequential_prefix(slots: Seq<Slot>, index: int, earlier: int)
    requires
        settled(slots, Placement::Sequential),
        0 <= earlier <= index < slots.len(),
        slots[index].key != 0,
    ensures
        slots[earlier].key != 0,
{
    let held = slots[index].key;
    assert(landing(slots, Placement::Sequential, held) == Some(index));
    lemma_landing_step(slots, Placement::Sequential, held);
    lemma_hit_step(slots, held, 0, 0);
    if earlier < index {
        lemma_probe_unfolds(0, earlier as nat, slots.len());
        assert(blocked_at(slots, held, 0, earlier as nat));
    }
}

/// With sequential placement, a scan that starts among the keys stops after
/// as many slots as hold a key.
proof fn lemma_len_from(slots: Seq<Slot>, from: nat)
    requires
        settled(slots, Placement::Sequential),
        from <= slots.len(),
        forall|i: int| 0 <= i < from ==> (#[trigger] slots[i]).key != 0,
    ensures
        len_from(slots, from) == occupied(slots, slots.len()),
    decreases slots.len() - from,
{
    if from < slots.len() && !unfinished(slots, from as int) {
        lemma_len_from(slots, from + 1);
    } else {
        assert forall|i: int| from <= i < slots.len() implies (#[trigger] slots[i]).key == 0 by {
            if slots[i].key != 0 {
                lemma_sequential_prefix(slots, i, from as int);
            }
        }
        lemma_occupied_prefix(slots, from, slots.len());
    }
}

/// When keys fill exactly the first `filled` slots, that many slots hold a
/// key.
proof fn lemma_occupied_prefix(slots: Seq<Slot>, filled: nat, upto: nat)
    requires
        filled <= slots.len(),
        upto <= slots.len(),
        forall|i: int| 0 <= i < filled ==> (#[trigger] slots[i]).key != 0,
        forall|i: int| filled <= i < slots.len() ==> (#[trigger] slots[i]).key == 0,
    ensures
        occupied(slots, upto) == if upto <= filled {
            upto
        } else {
            filled
        },
    decreases upto,
{
    if upto > 0 {
        lemma_occupied_prefix(slots, filled, (upto - 1) as nat);
    }
}

/// With sequential placement `len` counts the keys of a settled table.
pub proof fn len_counts_keys(slots: Seq<Slot>)
    requires
        settled(slots, Placement::Sequential),
    ensures
        len_outcome(slots) == contents(slots).dom().len(),
{
    lemma_len_from(slots, 0);
    lemma_keys_are_bound(slots, Placement::Sequential);
}

/// With sequential placement `is_empty` holds of a settled table exactly when
/// `len` is zero.
pub proof fn is_empty_iff_len_zero(slots: Seq<Slot>)
    requires
        settled(slots, Placement::Sequential),
    ensures
        is_empty_outcome(slots) <==> len_outcome(slots) == 0,
{
    len_counts_keys(slots);
    is_empty_iff_no_keys(slots, Placement::Sequential);
    lemma_keys_are_bound(slots, Placement::Sequential);
    if len_outcome(slots) == 0 {
        assert(contents(slots).dom() =~= Set::<u32>::empty());
        assert(contents(slots) =~= Map::<u32, u32>::empty());
    }
}

/// Capacity: no sequence of `set` calls changes the number of slots.
pub proof fn capacity_is_fixed(slots: Seq<Slot>, placement: Placement, writes: Seq<(u32, u32)>)
    ensures
        replay(slots, placement, writes).len() == slots.len(),
    decreases writes.len(),
{
    if writes.len() > 0 {
        let before = replay(slots, placement, writes.drop_last());
        capacity_is_fixed(slots, placement, writes.drop_last());
        if before.len() > 0 {
            lemma_landing(before, placement, writes.last().0);
        }
    }
}

/// A settled table stays settled through any sequence of `set` calls.
pub proof fn replay_keeps_settled(
    slots: Seq<Slot>,
    placement: Placement,
    writes: Seq<(u32, u32)>,
)
    requires
        settled(slots, placement),
    ensures
        settled(replay(slots, placement, writes), placement),
    decreases writes.len(),
{
    if writes.len() > 0 {
        replay_keeps_settled(slots, placement, writes.drop_last());
        set_keeps_settled(
            replay(slots, placement, writes.drop_last()),
            placement,
            writes.last().0,
            writes.last().1,
        );
    }
}

/// After any sequence of `set` calls, a key is bound only if the table bound
/// it before or one of the calls was for it.
pub proof fn replay_binds_written_keys(
    slots: Seq<Slot>,
    placement: Placement,
    writes: Seq<(u32, u32)>,
    key: u32,
)
    requires
        settled(slots, placement),
        contents(replay(slots, placement, writes)).contains_key(key),
    ensures
        contents(slots).contains_key(key) || exists|n: int|
            0 <= n < writes.len() && (#[trigger] writes[n]).0 == key,
    decreases writes.len(),
{
    if writes.len() > 0 {
        let before = replay(slots, placement, writes.drop_last());
        replay_keeps_settled(slots, placement, writes.drop_last());
        if writes.last().0 == key {
            assert(writes[writes.len() - 1].0 == key);
        } else {
            if set_outcome(before, placement, writes.last().0, writes.last().1) is Ok {
                set_inserts(before, placement, writes.last().0, writes.last().1);
            }
            replay_binds_written_keys(slots, placement, writes.drop_last(), key);
            if !contents(slots).contains_key(key) {
                let n = choose|n: int|
                    0 <= n < writes.drop_last().len() && (#[trigger] writes.drop_last()[n]).0
                        == key;
                assert(writes[n].0 == key);
            }
        }
    }
}

/// Absence: in a new table that went through any sequence of `set` calls,
/// `get` finds nothing for a key that none of the calls was for.
pub proof fn never_set_is_absent(
    capacity: nat,
    placement: Placement,
    writes: Seq<(u32, u32)>,
    key: u32,
)
    requires
        capacity > 0,
        key != 0,
        forall|n: int| 0 <= n < writes.len() ==> (#[trigger] writes[n]).0 != key,
    ensures
        get_outcome(replay(fresh(capacity), placement, writes), placement, key) == Ok::<
            Option<u32>,
            TableError,
        >(None),
{
    fresh_is_empty(capacity, placement);
    replay_keeps_settled(fresh(capacity), placement, writes);
    get_reads_contents(replay(fresh(capacity), placement, writes), placement, key);
    if contents(replay(fresh(capacity), placement, writes)).contains_key(key) {
        replay_binds_written_keys(fresh(capacity), placement, writes, key);
    }
}

} // verus!
