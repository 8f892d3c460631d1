//! What callers may rely on while the table is used concurrently.
//!
//! Every law here holds at every moment of every execution, whatever the
//! order in which the calls in flight make their accesses.

use vstd::prelude::*;
use crate::access::Slot;
use crate::call::{
    read_access, read_turns_left, write_access, write_turns_left, ReadProgress, Reader,
    WriteProgress, Writer,
};
use crate::concurrent::coherence::{
    all_at_start, coherent, passed, reader_coherent, run_keeps_coherent, start_is_coherent,
    turn_keeps_coherent, write_only_fills, writer_coherent, writes_key, wrote,
};
use crate::concurrent::protocol::{prefix, reader_after, run, turn, writer_after, Turn, World};
use crate::error::TableError;
use crate::placement::{probe_index, start_index, Placement};
use crate::sequential::counting::{keys_upto, lemma_keys_counted, lemma_keys_upto, lemma_vacancy};
use crate::sequential::model::{blocked_at, fresh, get_outcome, landing, placed, settled};
use crate::sequential::search::{
    lemma_hit_step, lemma_hit_step_found, lemma_landing, lemma_landing_step,
    lemma_probe_reaches, lemma_probe_unfolds, lemma_start_in_range, step_to,
};

verus! {

/// No two slots hold the same key.
pub proof fn no_key_twice(slots: Seq<Slot>, placement: Placement, i: int, j: int)
    requires
        placed(slots, placement),
        0 <= i < slots.len(),
        0 <= j < slots.len(),
        slots[i].key != 0,
        slots[i].key == slots[j].key,
    ensures
        i == j,
{
    assert(landing(slots, placement, slots[i].key) == Some(i));
    assert(landing(slots, placement, slots[j].key) == Some(j));
}

/// A slot only moves forward, from vacant to claimed to valued: no turn
/// changes the number of slots, the key of a claimed slot, or the fact that
/// a slot has a value.
pub proof fn turn_only_fills(world: World, placement: Placement, whose: Turn, i: int)
    requires
        coherent(world, placement),
        0 <= i < world.slots.len(),
    ensures
        turn(world, whose).slots.len() == world.slots.len(),
        world.slots[i].key != 0 ==> turn(world, whose).slots[i].key == world.slots[i].key,
        world.slots[i].value != 0 ==> turn(world, whose).slots[i].value != 0,
        turn(world, whose).slots[i].value != 0 ==> turn(world, whose).slots[i].key != 0,
{
    turn_keeps_coherent(world, placement, whose);
    match whose {
        Turn::Write(who) => {
            if 0 <= who < world.writers.len() {
                assert(writer_coherent(world.slots, placement, world.writers[who]));
                write_only_fills(world.slots, placement, world.writers[who], i);
            }
        },
        Turn::Read(who) => {},
    }
}

/// Through a whole execution the number of slots stays, a claimed slot keeps
/// its key, and a slot with a value keeps having one.
pub proof fn run_only_fills(world: World, placement: Placement, schedule: Seq<Turn>, i: int)
    requires
        coherent(world, placement),
        0 <= i < world.slots.len(),
    ensures
        run(world, schedule).slots.len() == world.slots.len(),
        world.slots[i].key != 0 ==> run(world, schedule).slots[i].key == world.slots[i].key,
        world.slots[i].value != 0 ==> run(world, schedule).slots[i].value != 0,
    decreases schedule.len(),
{
    if schedule.len() > 0 {
        run_only_fills(world, placement, schedule.drop_last(), i);
        run_keeps_coherent(world, placement, schedule.drop_last());
        turn_only_fills(run(world, schedule.drop_last()), placement, schedule.last(), i);
    }
}

/// An execution neither adds nor drops a call, and changes no call's key,
/// value, start or capacity.
pub proof fn run_keeps_calls(world: World, schedule: Seq<Turn>)
    ensures
        run(world, schedule).writers.len() == world.writers.len(),
        run(world, schedule).readers.len() == world.readers.len(),
        forall|w: int|
            0 <= w < world.writers.len() ==> {
                &&& (#[trigger] run(world, schedule).writers[w]).key == world.writers[w].key
                &&& run(world, schedule).writers[w].value == world.writers[w].value
                &&& run(world, schedule).writers[w].start == world.writers[w].start
                &&& run(world, schedule).writers[w].capacity == world.writers[w].capacity
            },
        forall|r: int|
            0 <= r < world.readers.len() ==> {
                &&& (#[trigger] run(world, schedule).readers[r]).key == world.readers[r].key
                &&& run(world, schedule).readers[r].start == world.readers[r].start
                &&& run(world, schedule).readers[r].capacity == world.readers[r].capacity
            },
    decreases schedule.len(),
{
    if schedule.len() > 0 {
        run_keeps_calls(world, schedule.drop_last());
    }
}

/// A `get` writes nothing.
pub proof fn get_changes_nothing(world: World, r: int)
    ensures
        turn(world, Turn::Read(r)).slots == world.slots,
        turn(world, Turn::Read(r)).writers == world.writers,
{
}

/// A value in the table is one that a successful `set` for its key gave: a
/// `get` on the slots as they are returns nothing else.
pub proof fn read_value_was_written(world: World, placement: Placement, key: u32, value: u32)
    requires
        coherent(world, placement),
        get_outcome(world.slots, placement, key) == Ok::<Option<u32>, TableError>(Some(value)),
    ensures
        wrote(world.writers, key, value),
{
    lemma_landing(world.slots, placement, key);
    let index = landing(world.slots, placement, key).unwrap();
    assert(world.slots[index].value == value);
}

/// What a `get` call returns is nothing, or a value that a successful `set`
/// for its key gave.
pub proof fn returned_value_was_written(world: World, placement: Placement, r: int, value: u32)
    requires
        coherent(world, placement),
        0 <= r < world.readers.len(),
        world.readers[r].progress == (ReadProgress::Returned { found: Some(value) }),
    ensures
        wrote(world.writers, world.readers[r].key, value),
        value != 0,
{
    assert(reader_coherent(world, placement, world.readers[r]));
}

/// Whether no other `set` call of the world is for the key of writer `w`.
pub open spec fn sole_writer(world: World, w: int) -> bool {
    forall|other: int|
        0 <= other < world.writers.len() && other != w ==> (#[trigger] world.writers[other]).key
            != world.writers[w].key
}

/// Convergence: once a `set` has returned success, and no other `set` is for
/// the same key, a `get` on the slots as they are returns its value, whatever
/// the other calls have done or are doing.
pub proof fn stored_value_is_read(world: World, placement: Placement, w: int)
    requires
        coherent(world, placement),
        0 <= w < world.writers.len(),
        world.writers[w].progress is Stored,
        sole_writer(world, w),
    ensures
        get_outcome(world.slots, placement, world.writers[w].key) == Ok::<
            Option<u32>,
            TableError,
        >(Some(world.writers[w].value)),
{
    let writer = world.writers[w];
    assert(writer_coherent(world.slots, placement, writer));
    let index = writer.progress->Stored_index;
    assert(world.slots[index].key == writer.key);
    assert(landing(world.slots, placement, world.slots[index].key) == Some(index));
    assert(wrote(world.writers, world.slots[index].key, world.slots[index].value));
}

/// Whether a `set` call has returned.
pub open spec fn finished(writer: Writer) -> bool {
    write_access(writer) is None
}

/// When every `set` has returned, every claimed slot has its value: the
/// table is settled, and the laws of sequential use hold of it.
pub proof fn quiescent_is_settled(world: World, placement: Placement)
    requires
        coherent(world, placement),
        forall|w: int| 0 <= w < world.writers.len() ==> finished(#[trigger] world.writers[w]),
    ensures
        settled(world.slots, placement),
{
    assert forall|i: int| 0 <= i < world.slots.len() && (#[trigger] world.slots[i]).key
        != 0 implies world.slots[i].value != 0 by {
        let key = world.slots[i].key;
        assert(writes_key(world.writers, key));
        let w = choose|w: int|
            0 <= w < world.writers.len() && (#[trigger] world.writers[w]).key == key;
        let writer = world.writers[w];
        assert(writer_coherent(world.slots, placement, writer));
        assert(finished(writer));
        match writer.progress {
            WriteProgress::Stored { index } => {
                no_key_twice(world.slots, placement, i, index);
            },
            _ => {
                lemma_probe_reaches(writer.start, i, world.slots.len());
                assert(blocked_at(
                    world.slots,
                    key,
                    writer.start,
                    step_to(writer.start, i, world.slots.len()),
                ));
            },
        }
    }
}

/// A `set` reports that the capacity is exhausted only when every slot holds
/// another key.
pub proof fn exhausted_means_full(world: World, placement: Placement, w: int, i: int)
    requires
        coherent(world, placement),
        0 <= w < world.writers.len(),
        world.writers[w].progress is Exhausted,
        0 <= i < world.slots.len(),
    ensures
        world.slots[i].key != 0,
        world.slots[i].key != world.writers[w].key,
{
    let writer = world.writers[w];
    assert(writer_coherent(world.slots, placement, writer));
    lemma_probe_reaches(writer.start, i, world.slots.len());
    assert(blocked_at(
        world.slots,
        writer.key,
        writer.start,
        step_to(writer.start, i, world.slots.len()),
    ));
}

/// The keys of the first `upto` writers.
pub open spec fn writer_keys(writers: Seq<Writer>, upto: nat) -> Set<u32>
    decreases upto,
{
    if upto == 0 {
        Set::empty()
    } else {
        writer_keys(writers, (upto - 1) as nat).insert(writers[upto - 1].key)
    }
}

/// The first `upto` writers have at most `upto` keys between them.
proof fn lemma_writer_keys(writers: Seq<Writer>, upto: nat)
    requires
        upto <= writers.len(),
    ensures
        writer_keys(writers, upto).finite(),
        writer_keys(writers, upto).len() <= upto,
        forall|w: int| 0 <= w < upto ==> writer_keys(writers, upto).contains(
            (#[trigger] writers[w]).key,
        ),
    decreases upto,
{
    if upto > 0 {
        lemma_writer_keys(writers, (upto - 1) as nat);
    }
}

/// Room for every key: while there are no more `set` calls than slots, none
/// of them reports that the capacity is exhausted.
pub proof fn room_for_every_writer(world: World, placement: Placement, w: int)
    requires
        coherent(world, placement),
        world.writers.len() <= world.slots.len(),
        0 <= w < world.writers.len(),
    ensures
        !(world.writers[w].progress is Exhausted),
{
    if world.writers[w].progress is Exhausted {
        let slots = world.slots;
        let capacity = slots.len();
        let held = keys_upto(slots, capacity);
        let asked = writer_keys(world.writers, world.writers.len());
        lemma_keys_upto(slots, capacity);
        lemma_keys_counted(slots, placement, capacity);
        lemma_vacancy(slots, capacity);
        lemma_writer_keys(world.writers, world.writers.len());
        assert forall|i: int| 0 <= i < capacity implies (#[trigger] slots[i]).key != 0
            && slots[i].key != world.writers[w].key by {
            exhausted_means_full(world, placement, w, i);
        }
        assert(held.len() == capacity);
        let wanted = world.writers[w].key;
        assert(!held.contains(wanted));
        assert forall|key: u32| held.insert(wanted).contains(key) implies asked.contains(key) by {
            if key != wanted {
                let i = choose|i: int| 0 <= i < capacity && (#[trigger] slots[i]).key == key;
                assert(writes_key(world.writers, slots[i].key));
                let v = choose|v: int|
                    0 <= v < world.writers.len() && (#[trigger] world.writers[v]).key == key;
                assert(asked.contains(world.writers[v].key));
            } else {
                assert(asked.contains(world.writers[w].key));
            }
        }
        vstd::set_lib::lemma_len_subset(held.insert(wanted), asked);
    }
}

/// Why `get` may stop at a vacant slot: when a call for `key` has seen
/// another key in every slot before a vacant one on its probe path, no slot
/// holds `key` at that moment.
pub proof fn vacant_slot_means_absent(
    slots: Seq<Slot>,
    placement: Placement,
    key: u32,
    step: nat,
    i: int,
)
    requires
        placed(slots, placement),
        key != 0,
        step < slots.len(),
        passed(slots, key, start_index(placement, key, slots.len()), step),
        slots[probe_index(start_index(placement, key, slots.len()), step, slots.len()) as int].key
            == 0,
        0 <= i < slots.len(),
    ensures
        slots[i].key != key,
{
    if slots[i].key == key {
        let start = start_index(placement, key, slots.len());
        lemma_start_in_range(placement, key, slots.len());
        lemma_probe_unfolds(start, step, slots.len());
        assert(landing(slots, placement, slots[i].key) == Some(i));
        lemma_hit_step_found(slots, key, start, 0, step);
    }
}

/// Whether writer `w` has returned success, is alone in writing its key, and
/// reader `r` asks for that key and has not gone past the writer's slot, or
/// has returned the writer's value.
pub open spec fn on_course(world: World, w: int, r: int) -> bool {
    &&& 0 <= w < world.writers.len()
    &&& 0 <= r < world.readers.len()
    &&& world.writers[w].progress is Stored
    &&& world.readers[r].key == world.writers[w].key
    &&& sole_writer(world, w)
    &&& match world.readers[r].progress {
        ReadProgress::Seeking { step } => step <= step_to(
            world.writers[w].start,
            world.writers[w].progress->Stored_index,
            world.slots.len(),
        ),
        ReadProgress::Reading { index } => index == world.writers[w].progress->Stored_index,
        ReadProgress::Returned { found } => found == Some(world.writers[w].value),
    }
}

/// A reader on course stays on course through every turn.
proof fn lemma_turn_keeps_course(world: World, placement: Placement, whose: Turn, w: int, r: int)
    requires
        coherent(world, placement),
        on_course(world, w, r),
    ensures
        on_course(turn(world, whose), w, r),
{
    let next = turn(world, whose);
    let writer = world.writers[w];
    let reader = world.readers[r];
    let capacity = world.slots.len();
    let key = writer.key;
    let start = writer.start;
    let index = writer.progress->Stored_index;
    assert(writer_coherent(world.slots, placement, writer));
    assert(reader_coherent(world, placement, reader));
    turn_only_fills(world, placement, whose, index);
    assert forall|other: int|
        0 <= other < next.writers.len() && other != w implies (#[trigger] next.writers[other]).key
        != next.writers[w].key by {
        assert(world.writers[other].key != world.writers[w].key);
    }
    match whose {
        Turn::Read(who) => {
            if who == r {
                assert(landing(world.slots, placement, world.slots[index].key) == Some(index));
                lemma_landing_step(world.slots, placement, key);
                lemma_hit_step(world.slots, key, start, 0);
                lemma_probe_reaches(start, index, capacity);
                match reader.progress {
                    ReadProgress::Seeking { step } => {
                        lemma_probe_unfolds(start, step, capacity);
                        if step < step_to(start, index, capacity) {
                            assert(blocked_at(world.slots, key, start, step));
                        }
                    },
                    ReadProgress::Reading { index } => {
                        let value = world.slots[index].value;
                        assert(wrote(world.writers, world.slots[index].key, value));
                        let v = choose|v: int|
                            0 <= v < world.writers.len() && (#[trigger] world.writers[v]).key
                                == key && world.writers[v].value == value
                                && world.writers[v].progress is Stored;
                        assert(v == w);
                    },
                    ReadProgress::Returned { found } => {},
                }
            }
        },
        Turn::Write(who) => {},
    }
}

/// A reader on course stays on course through a whole execution.
proof fn lemma_run_keeps_course(
    world: World,
    placement: Placement,
    schedule: Seq<Turn>,
    w: int,
    r: int,
)
    requires
        coherent(world, placement),
        on_course(world, w, r),
    ensures
        on_course(run(world, schedule), w, r),
    decreases schedule.len(),
{
    if schedule.len() > 0 {
        lemma_run_keeps_course(world, placement, schedule.drop_last(), w, r);
        run_keeps_coherent(world, placement, schedule.drop_last());
        lemma_turn_keeps_course(
            run(world, schedule.drop_last()),
            placement,
            schedule.last(),
            w,
            r,
        );
    }
}

/// Visibility: once a `set` has returned success, and no other `set` is for
/// the same key, every `get` for that key that begins afterwards returns its
/// value, whatever the other calls do in between.
pub proof fn completed_set_is_visible(
    world: World,
    placement: Placement,
    schedule: Seq<Turn>,
    w: int,
    r: int,
)
    requires
        coherent(world, placement),
        0 <= w < world.writers.len(),
        world.writers[w].progress is Stored,
        sole_writer(world, w),
        0 <= r < world.readers.len(),
        world.readers[r].key == world.writers[w].key,
        world.readers[r].progress == (ReadProgress::Seeking { step: 0 }),
    ensures
        run(world, schedule).readers[r].progress matches ReadProgress::Returned { found }
            ==> found == Some(world.writers[w].value),
{
    lemma_run_keeps_course(world, placement, schedule, w, r);
    run_keeps_calls(world, schedule);
}

/// No waiting: whatever the other calls do, every access of a `set` call
/// brings it closer to its return, which comes after at most two accesses
/// per slot and one more.
pub proof fn set_never_waits(slots: Seq<Slot>, placement: Placement, writer: Writer)
    requires
        writer_coherent(slots, placement, writer),
        !finished(writer),
    ensures
        write_turns_left(writer_after(slots, writer)) < write_turns_left(writer),
        write_turns_left(writer) <= 2 * slots.len() + 1,
{
}

/// No waiting: whatever the other calls do, every access of a `get` call
/// brings it closer to its return, which comes after at most one access per
/// slot and one more.
pub proof fn get_never_waits(world: World, placement: Placement, reader: Reader)
    requires
        reader_coherent(world, placement, reader),
        read_access(reader) is Some,
    ensures
        read_turns_left(reader_after(world.slots, reader)) < read_turns_left(reader),
        read_turns_left(reader) <= world.slots.len() + 1,
{
}

/// Whether a `set` call is past the point of failing: it has found or
/// claimed its slot.
pub open spec fn committed(writer: Writer) -> bool {
    writer.progress is Storing || writer.progress is Stored
}

/// The turns of a `set` that change a slot come when it has claimed its slot
/// or found its key there, and from then on it can only succeed.
pub proof fn writing_commits(world: World, placement: Placement, whose: Turn, w: int)
    requires
        coherent(world, placement),
        0 <= w < world.writers.len(),
    ensures
        committed(world.writers[w]) ==> committed(turn(world, whose).writers[w]),
        whose == Turn::Write(w) && turn(world, whose).slots != world.slots ==> committed(
            turn(world, whose).writers[w],
        ),
        whose != Turn::Write(w) ==> turn(world, whose).writers[w] == world.writers[w],
{
    let writer = world.writers[w];
    assert(writer_coherent(world.slots, placement, writer));
    match whose {
        Turn::Write(who) => {
            if who == w {
                match writer.progress {
                    WriteProgress::Probing { step } => {
                        lemma_probe_unfolds(writer.start, step, writer.capacity);
                        assert(turn(world, whose).slots =~= world.slots);
                    },
                    WriteProgress::Claiming { step } => {
                        lemma_probe_unfolds(writer.start, step, writer.capacity);
                        let index = probe_index(writer.start, step, writer.capacity) as int;
                        if world.slots[index].key != 0 {
                            assert(turn(world, whose).slots =~= world.slots);
                        }
                    },
                    _ => {},
                }
            }
        },
        Turn::Read(who) => {},
    }
}

/// A writer that is committed at some moment of an execution is committed
/// at its end.
proof fn lemma_stays_committed(
    world: World,
    placement: Placement,
    schedule: Seq<Turn>,
    w: int,
    count: int,
)
    requires
        coherent(world, placement),
        0 <= w < world.writers.len(),
        0 <= count <= schedule.len(),
        committed(run(world, prefix(schedule, count)).writers[w]),
    ensures
        committed(run(world, schedule).writers[w]),
    decreases schedule.len() - count,
{
    if count < schedule.len() {
        let now = run(world, prefix(schedule, count));
        assert(prefix(schedule, count + 1).drop_last() =~= prefix(schedule, count));
        run_keeps_coherent(world, placement, prefix(schedule, count));
        run_keeps_calls(world, prefix(schedule, count));
        writing_commits(now, placement, schedule[count], w);
        lemma_stays_committed(world, placement, schedule, w, count + 1);
    } else {
        assert(prefix(schedule, count) =~= schedule);
    }
}

/// A failed `set` has written nothing: when a `set` call ends with the
/// report that the capacity is exhausted, none of its turns has changed a
/// slot.
pub proof fn failed_set_wrote_nothing(
    world: World,
    placement: Placement,
    schedule: Seq<Turn>,
    w: int,
    count: int,
)
    requires
        coherent(world, placement),
        0 <= w < world.writers.len(),
        run(world, schedule).writers[w].progress is Exhausted,
        0 <= count < schedule.len(),
        schedule[count] == Turn::Write(w),
    ensures
        run(world, prefix(schedule, count + 1)).slots == run(world, prefix(schedule, count)).slots,
{
    let before = run(world, prefix(schedule, count));
    let after = run(world, prefix(schedule, count + 1));
    assert(prefix(schedule, count + 1).drop_last() =~= prefix(schedule, count));
    assert(after == turn(before, schedule[count]));
    if after.slots != before.slots {
        run_keeps_coherent(world, placement, prefix(schedule, count));
        run_keeps_calls(world, prefix(schedule, count));
        writing_commits(before, placement, schedule[count], w);
        lemma_stays_committed(world, placement, schedule, w, count + 1);
    }
}

/// Concurrent inserts of different keys converge: in a new table with at
/// least as many slots as `set` calls, all for different keys, every call
/// that has returned has returned success, and a `get` on the slots as they
/// are returns its value, in whatever order the accesses of all the calls
/// took place.
pub proof fn disjoint_writers_converge(
    world: World,
    placement: Placement,
    schedule: Seq<Turn>,
    w: int,
)
    requires
        world.slots.len() > 0,
        world.slots == fresh(world.slots.len()),
        all_at_start(world, placement),
        world.writers.len() <= world.slots.len(),
        forall|a: int, b: int|
            0 <= a < b < world.writers.len() ==> (#[trigger] world.writers[a]).key
                != (#[trigger] world.writers[b]).key,
        0 <= w < world.writers.len(),
        finished(run(world, schedule).writers[w]),
    ensures
        run(world, schedule).writers[w].progress is Stored,
        get_outcome(run(world, schedule).slots, placement, world.writers[w].key) == Ok::<
            Option<u32>,
            TableError,
        >(Some(world.writers[w].value)),
        run(world, schedule).slots.len() == world.slots.len(),
{
    let end = run(world, schedule);
    start_is_coherent(world, placement);
    run_keeps_coherent(world, placement, schedule);
    run_keeps_calls(world, schedule);
    run_only_fills(world, placement, schedule, 0);
    room_for_every_writer(end, placement, w);
    assert forall|other: int| 0 <= other < end.writers.len() && other != w implies (
    #[trigger] end.writers[other]).key != end.writers[w].key by {
        if other < w {
            assert(world.writers[other].key != world.writers[w].key);
        } else {
            assert(world.writers[w].key != world.writers[other].key);
        }
    }
    stored_value_is_read(end, placement, w);
}

/// Absence: a `get` for a key that no `set` call is for returns nothing,
/// whatever the calls in flight do.
pub proof fn unwritten_key_is_absent(
    world: World,
    placement: Placement,
    schedule: Seq<Turn>,
    r: int,
)
    requires
        coherent(world, placement),
        0 <= r < world.readers.len(),
        !writes_key(world.writers, world.readers[r].key),
    ensures
        run(world, schedule).readers[r].progress matches ReadProgress::Returned { found }
            ==> found is None,
{
    let end = run(world, schedule);
    run_keeps_coherent(world, placement, schedule);
    run_keeps_calls(world, schedule);
    assert(reader_coherent(end, placement, end.readers[r]));
    if let ReadProgress::Returned { found: Some(value) } = end.readers[r].progress {
        let v = choose|v: int|
            0 <= v < end.writers.len() && (#[trigger] end.writers[v]).key == end.readers[r].key
                && end.writers[v].value == value && end.writers[v].progress is Stored;
        assert(world.writers[v].key == world.readers[r].key);
    }
}

} // verus!
