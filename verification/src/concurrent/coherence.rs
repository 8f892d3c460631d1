//! What holds of the slots and the calls at every moment of every
//! execution.

use vstd::prelude::*;
use crate::access::Slot;
use crate::call::{
    reader_at_start, reader_in_range, write_access, writer_at_start, writer_in_range,
    ReadProgress, Reader, WriteProgress, Writer,
};
use crate::concurrent::protocol::{run, slots_after_write, turn, writer_after, Turn, World};
use crate::placement::{probe_index, start_index, Placement};
use crate::sequential::model::{blocked_at, fresh, landing, placed};
use crate::sequential::search::{
    lemma_fill_keeps_placed, lemma_hit_step_found, lemma_probe_unfolds, lemma_start_in_range,
};

verus! {

/// Whether a `set(key, value)` call among `writers` has returned success.
pub open spec fn wrote(writers: Seq<Writer>, key: u32, value: u32) -> bool {
    exists|w: int|
        0 <= w < writers.len() && (#[trigger] writers[w]).key == key && writers[w].value == value
            && writers[w].progress is Stored
}

/// Whether a `set` call for `key` is among `writers`.
pub open spec fn writes_key(writers: Seq<Writer>, key: u32) -> bool {
    exists|w: int| 0 <= w < writers.len() && (#[trigger] writers[w]).key == key
}

/// Whether a call for `key` that starts at `start` has seen another key in
/// each of the first `steps` slots of its probe path.
pub open spec fn passed(slots: Seq<Slot>, key: u32, start: nat, steps: nat) -> bool {
    forall|j: nat| j < steps ==> blocked_at(slots, key, start, j)
}

/// What a `set` call knows of the slots at each point of its progress.
pub open spec fn writer_coherent(slots: Seq<Slot>, placement: Placement, writer: Writer) -> bool {
    &&& writer.key != 0
    &&& writer.value != 0
    &&& writer.capacity == slots.len()
    &&& writer.start == start_index(placement, writer.key, slots.len())
    &&& writer_in_range(writer)
    &&& match writer.progress {
        WriteProgress::Probing { step } => passed(slots, writer.key, writer.start, step),
        WriteProgress::Claiming { step } => passed(slots, writer.key, writer.start, step),
        WriteProgress::Storing { index } => slots[index].key == writer.key,
        WriteProgress::Stored { index } => {
            &&& slots[index].key == writer.key
            &&& slots[index].value != 0
        },
        WriteProgress::Exhausted => passed(slots, writer.key, writer.start, slots.len()),
    }
}

/// What a `get` call knows of the slots at each point of its progress; what
/// it returns is nothing, or a value that a successful `set` for its key
/// gave.
pub open spec fn reader_coherent(world: World, placement: Placement, reader: Reader) -> bool {
    &&& reader.key != 0
    &&& reader.capacity == world.slots.len()
    &&& reader.start == start_index(placement, reader.key, world.slots.len())
    &&& reader_in_range(reader)
    &&& match reader.progress {
        ReadProgress::Seeking { step } => passed(world.slots, reader.key, reader.start, step),
        ReadProgress::Reading { index } => world.slots[index].key == reader.key,
        ReadProgress::Returned { found } => found matches Some(value) ==> wrote(
            world.writers,
            reader.key,
            value,
        ),
    }
}

/// What holds of the world at every moment of every execution: every key is
/// placed; a slot with a value has a key, and a successful `set` for that key
/// gave that value; every key comes from a `set` call; and every call knows
/// of the slots what its progress says.
pub open spec fn coherent(world: World, placement: Placement) -> bool {
    &&& world.slots.len() > 0
    &&& placed(world.slots, placement)
    &&& forall|i: int|
        0 <= i < world.slots.len() && (#[trigger] world.slots[i]).value != 0 ==> {
            &&& world.slots[i].key != 0
            &&& wrote(world.writers, world.slots[i].key, world.slots[i].value)
        }
    &&& forall|i: int|
        0 <= i < world.slots.len() && (#[trigger] world.slots[i]).key != 0 ==> writes_key(
            world.writers,
            world.slots[i].key,
        )
    &&& forall|w: int|
        0 <= w < world.writers.len() ==> writer_coherent(
            world.slots,
            placement,
            #[trigger] world.writers[w],
        )
    &&& forall|r: int|
        0 <= r < world.readers.len() ==> reader_coherent(
            world,
            placement,
            #[trigger] world.readers[r],
        )
}

/// Whether every call of the world has nonzero arguments and has made no
/// access yet.
pub open spec fn all_at_start(world: World, placement: Placement) -> bool {
    &&& forall|w: int|
        0 <= w < world.writers.len() ==> {
            &&& (#[trigger] world.writers[w]).key != 0
            &&& world.writers[w].value != 0
            &&& world.writers[w] == writer_at_start(
                placement,
                world.writers[w].key,
                world.writers[w].value,
                world.slots.len(),
            )
        }
    &&& forall|r: int|
        0 <= r < world.readers.len() ==> {
            &&& (#[trigger] world.readers[r]).key != 0
            &&& world.readers[r] == reader_at_start(
                placement,
                world.readers[r].key,
                world.slots.len(),
            )
        }
}

/// A new table with calls that have not begun is coherent.
pub proof fn start_is_coherent(world: World, placement: Placement)
    requires
        world.slots.len() > 0,
        world.slots == fresh(world.slots.len()),
        all_at_start(world, placement),
    ensures
        coherent(world, placement),
{
    assert forall|w: int| 0 <= w < world.writers.len() implies writer_coherent(
        world.slots,
        placement,
        #[trigger] world.writers[w],
    ) by {
        lemma_start_in_range(placement, world.writers[w].key, world.slots.len());
    }
    assert forall|r: int| 0 <= r < world.readers.len() implies reader_coherent(
        world,
        placement,
        #[trigger] world.readers[r],
    ) by {
        lemma_start_in_range(placement, world.readers[r].key, world.slots.len());
    }
}

/// A `set` call with nonzero arguments may begin at any moment.
pub proof fn beginning_a_set_keeps_coherent(
    world: World,
    placement: Placement,
    key: u32,
    value: u32,
)
    requires
        coherent(world, placement),
        key != 0,
        value != 0,
    ensures
        coherent(
            World {
                writers: world.writers.push(
                    writer_at_start(placement, key, value, world.slots.len()),
                ),
                ..world
            },
            placement,
        ),
{
    let writers = world.writers.push(writer_at_start(placement, key, value, world.slots.len()));
    let next = World { writers, ..world };
    lemma_start_in_range(placement, key, world.slots.len());
    assert forall|k: u32, v: u32| wrote(world.writers, k, v) implies wrote(writers, k, v) by {
        let w = choose|w: int|
            0 <= w < world.writers.len() && (#[trigger] world.writers[w]).key == k
                && world.writers[w].value == v && world.writers[w].progress is Stored;
        assert(writers[w] == world.writers[w]);
    }
    assert forall|k: u32| writes_key(world.writers, k) implies writes_key(writers, k) by {
        let w = choose|w: int|
            0 <= w < world.writers.len() && (#[trigger] world.writers[w]).key == k;
        assert(writers[w] == world.writers[w]);
    }
    assert forall|w: int| 0 <= w < writers.len() implies writer_coherent(
        next.slots,
        placement,
        #[trigger] writers[w],
    ) by {
        if w < world.writers.len() {
            assert(writer_coherent(world.slots, placement, world.writers[w]));
        }
    }
    assert forall|r: int| 0 <= r < next.readers.len() implies reader_coherent(
        next,
        placement,
        #[trigger] next.readers[r],
    ) by {
        assert(reader_coherent(world, placement, world.readers[r]));
    }
}

/// A `get` call with a nonzero key may begin at any moment.
pub proof fn beginning_a_get_keeps_coherent(world: World, placement: Placement, key: u32)
    requires
        coherent(world, placement),
        key != 0,
    ensures
        coherent(
            World {
                readers: world.readers.push(reader_at_start(placement, key, world.slots.len())),
                ..world
            },
            placement,
        ),
{
    let readers = world.readers.push(reader_at_start(placement, key, world.slots.len()));
    let next = World { readers, ..world };
    lemma_start_in_range(placement, key, world.slots.len());
    assert forall|r: int| 0 <= r < readers.len() implies reader_coherent(
        next,
        placement,
        #[trigger] readers[r],
    ) by {
        if r < world.readers.len() {
            assert(reader_coherent(world, placement, world.readers[r]));
        }
    }
}

/// The slot on which a coherent `set` call makes its next access lies in the
/// table.
pub proof fn lemma_write_access_in_range(slots: Seq<Slot>, placement: Placement, writer: Writer)
    requires
        writer_coherent(slots, placement, writer),
    ensures
        write_access(writer) matches Some((index, access)) ==> 0 <= index < slots.len(),
{
    match writer.progress {
        WriteProgress::Probing { step } => {
            lemma_probe_unfolds(writer.start, step, writer.capacity);
        },
        WriteProgress::Claiming { step } => {
            lemma_probe_unfolds(writer.start, step, writer.capacity);
        },
        _ => {},
    }
}

/// An access keeps the number of slots, every key that a slot holds, and
/// the fact that a slot has a value. Only a claim changes a key, to that of
/// the call, and only a store changes a value, in the slot of the call's
/// key.
pub proof fn write_only_fills(slots: Seq<Slot>, placement: Placement, writer: Writer, i: int)
    requires
        writer_coherent(slots, placement, writer),
        0 <= i < slots.len(),
    ensures
        slots_after_write(slots, writer).len() == slots.len(),
        slots[i].key != 0 ==> slots_after_write(slots, writer)[i].key == slots[i].key,
        slots[i].value != 0 ==> slots_after_write(slots, writer)[i].value != 0,
        slots_after_write(slots, writer)[i].key != slots[i].key ==> {
            &&& writer.progress is Claiming
            &&& slots_after_write(slots, writer)[i].key == writer.key
            &&& slots_after_write(slots, writer)[i].value == slots[i].value
        },
        slots_after_write(slots, writer)[i].value != slots[i].value ==> {
            &&& writer.progress is Storing
            &&& slots[i].key == writer.key
            &&& slots_after_write(slots, writer)[i].value == writer.value
        },
{
    lemma_write_access_in_range(slots, placement, writer);
}

/// What a call has passed stays passed when slots are only filled.
proof fn lemma_passed_survives(
    slots: Seq<Slot>,
    next: Seq<Slot>,
    key: u32,
    start: nat,
    steps: nat,
)
    requires
        next.len() == slots.len(),
        start < slots.len(),
        steps <= slots.len(),
        forall|i: int|
            0 <= i < slots.len() && (#[trigger] slots[i]).key != 0 ==> next[i].key
                == slots[i].key,
        passed(slots, key, start, steps),
    ensures
        passed(next, key, start, steps),
{
    assert forall|j: nat| j < steps implies blocked_at(next, key, start, j) by {
        lemma_probe_unfolds(start, j, slots.len());
        assert(blocked_at(slots, key, start, j));
    }
}

/// A successful `set` stays on record through every turn.
proof fn lemma_wrote_survives(world: World, whose: Turn, key: u32, value: u32)
    requires
        wrote(world.writers, key, value),
    ensures
        wrote(turn(world, whose).writers, key, value),
{
    let w = choose|w: int|
        0 <= w < world.writers.len() && (#[trigger] world.writers[w]).key == key
            && world.writers[w].value == value && world.writers[w].progress is Stored;
    let next = turn(world, whose);
    assert(next.writers[w].key == key && next.writers[w].value == value
        && next.writers[w].progress is Stored);
}

/// A `set` call for a key stays on record through every turn.
proof fn lemma_writes_key_survives(world: World, whose: Turn, key: u32)
    requires
        writes_key(world.writers, key),
    ensures
        writes_key(turn(world, whose).writers, key),
{
    let w = choose|w: int| 0 <= w < world.writers.len() && (#[trigger] world.writers[w]).key == key;
    let next = turn(world, whose);
    assert(next.writers[w].key == key);
}

/// The access of a `set` call keeps every key placed.
proof fn lemma_write_keeps_placed(slots: Seq<Slot>, placement: Placement, writer: Writer)
    requires
        slots.len() > 0,
        placed(slots, placement),
        writer_coherent(slots, placement, writer),
    ensures
        placed(slots_after_write(slots, writer), placement),
{
    let capacity = slots.len();
    match writer.progress {
        WriteProgress::Claiming { step } => {
            let index = probe_index(writer.start, step, capacity) as int;
            lemma_probe_unfolds(writer.start, step, capacity);
            if slots[index].key == 0 {
                assert(!blocked_at(slots, writer.key, writer.start, step));
                lemma_hit_step_found(slots, writer.key, writer.start, 0, step);
                lemma_fill_keeps_placed(
                    slots,
                    placement,
                    index,
                    Slot { key: writer.key, value: slots[index].value },
                );
            } else {
                assert(slots_after_write(slots, writer) =~= slots);
            }
        },
        WriteProgress::Storing { index } => {
            assert(landing(slots, placement, slots[index].key) == Some(index));
            lemma_fill_keeps_placed(
                slots,
                placement,
                index,
                Slot { key: slots[index].key, value: writer.value },
            );
        },
        WriteProgress::Probing { step } => {
            lemma_probe_unfolds(writer.start, step, capacity);
            assert(slots_after_write(slots, writer) =~= slots);
        },
        _ => {},
    }
}

/// The access of a `set` call leaves it knowing of the slots what its new
/// progress says.
proof fn lemma_writer_advances(slots: Seq<Slot>, placement: Placement, writer: Writer)
    requires
        writer_coherent(slots, placement, writer),
    ensures
        writer_coherent(slots_after_write(slots, writer), placement, writer_after(slots, writer)),
{
    let capacity = slots.len();
    let next = slots_after_write(slots, writer);
    assert forall|i: int| 0 <= i < slots.len() && (#[trigger] slots[i]).key != 0 implies next[i].key
        == slots[i].key by {
        write_only_fills(slots, placement, writer, i);
    }
    lemma_write_access_in_range(slots, placement, writer);
    match writer.progress {
        WriteProgress::Probing { step } => {
            lemma_probe_unfolds(writer.start, step, capacity);
            let index = probe_index(writer.start, step, capacity) as int;
            write_only_fills(slots, placement, writer, index);
            lemma_passed_survives(slots, next, writer.key, writer.start, step);
        },
        WriteProgress::Claiming { step } => {
            lemma_probe_unfolds(writer.start, step, capacity);
            let index = probe_index(writer.start, step, capacity) as int;
            write_only_fills(slots, placement, writer, index);
            lemma_passed_survives(slots, next, writer.key, writer.start, step);
        },
        WriteProgress::Storing { index } => {
            write_only_fills(slots, placement, writer, index);
        },
        WriteProgress::Stored { index } => {},
        WriteProgress::Exhausted => {},
    }
}

/// A `set` call that does not take the turn still knows of the slots what
/// its progress says.
proof fn lemma_writer_undisturbed(
    slots: Seq<Slot>,
    placement: Placement,
    actor: Writer,
    writer: Writer,
)
    requires
        writer_coherent(slots, placement, actor),
        writer_coherent(slots, placement, writer),
    ensures
        writer_coherent(slots_after_write(slots, actor), placement, writer),
{
    let next = slots_after_write(slots, actor);
    assert forall|i: int| 0 <= i < slots.len() && (#[trigger] slots[i]).key != 0 implies next[i].key
        == slots[i].key by {
        write_only_fills(slots, placement, actor, i);
    }
    write_only_fills(slots, placement, actor, 0);
    match writer.progress {
        WriteProgress::Probing { step } => {
            lemma_passed_survives(slots, next, writer.key, writer.start, step);
        },
        WriteProgress::Claiming { step } => {
            lemma_passed_survives(slots, next, writer.key, writer.start, step);
        },
        WriteProgress::Storing { index } => {
            write_only_fills(slots, placement, actor, index);
        },
        WriteProgress::Stored { index } => {
            write_only_fills(slots, placement, actor, index);
        },
        WriteProgress::Exhausted => {
            lemma_passed_survives(slots, next, writer.key, writer.start, slots.len());
        },
    }
}

/// Coherence holds after every turn.
pub proof fn turn_keeps_coherent(world: World, placement: Placement, whose: Turn)
    requires
        coherent(world, placement),
    ensures
        coherent(turn(world, whose), placement),
{
    let next = turn(world, whose);
    let capacity = world.slots.len();
    match whose {
        Turn::Write(who) => {
            if 0 <= who < world.writers.len() {
                let actor = world.writers[who];
                assert(writer_coherent(world.slots, placement, actor));
                write_only_fills(world.slots, placement, actor, 0);
                lemma_write_keeps_placed(world.slots, placement, actor);
                assert forall|i: int|
                    0 <= i < next.slots.len() && (#[trigger] next.slots[i]).value != 0 implies {
                    &&& next.slots[i].key != 0
                    &&& wrote(next.writers, next.slots[i].key, next.slots[i].value)
                } by {
                    write_only_fills(world.slots, placement, actor, i);
                    if next.slots[i].value != world.slots[i].value {
                        assert(next.writers[who].key == next.slots[i].key
                            && next.writers[who].value == next.slots[i].value
                            && next.writers[who].progress is Stored);
                    } else {
                        assert(world.slots[i].value != 0);
                        lemma_wrote_survives(
                            world,
                            whose,
                            world.slots[i].key,
                            world.slots[i].value,
                        );
                    }
                }
                assert forall|i: int|
                    0 <= i < next.slots.len() && (#[trigger] next.slots[i]).key
                        != 0 implies writes_key(next.writers, next.slots[i].key) by {
                    write_only_fills(world.slots, placement, actor, i);
                    if next.slots[i].key != world.slots[i].key {
                        assert(next.writers[who].key == next.slots[i].key);
                    } else {
                        assert(world.slots[i].key != 0);
                        lemma_writes_key_survives(world, whose, world.slots[i].key);
                    }
                }
                assert forall|w: int| 0 <= w < next.writers.len() implies writer_coherent(
                    next.slots,
                    placement,
                    #[trigger] next.writers[w],
                ) by {
                    if w == who {
                        lemma_writer_advances(world.slots, placement, actor);
                    } else {
                        assert(writer_coherent(world.slots, placement, world.writers[w]));
                        lemma_writer_undisturbed(
                            world.slots,
                            placement,
                            actor,
                            world.writers[w],
                        );
                    }
                }
                assert forall|r: int| 0 <= r < next.readers.len() implies reader_coherent(
                    next,
                    placement,
                    #[trigger] next.readers[r],
                ) by {
                    let reader = world.readers[r];
                    assert(reader_coherent(world, placement, reader));
                    assert forall|i: int|
                        0 <= i < world.slots.len() && (#[trigger] world.slots[i]).key
                            != 0 implies next.slots[i].key == world.slots[i].key by {
                        write_only_fills(world.slots, placement, actor, i);
                    }
                    match reader.progress {
                        ReadProgress::Seeking { step } => {
                            lemma_passed_survives(
                                world.slots,
                                next.slots,
                                reader.key,
                                reader.start,
                                step,
                            );
                        },
                        ReadProgress::Reading { index } => {
                            write_only_fills(world.slots, placement, actor, index);
                        },
                        ReadProgress::Returned { found } => {
                            if let Some(value) = found {
                                lemma_wrote_survives(world, whose, reader.key, value);
                            }
                        },
                    }
                }
            }
        },
        Turn::Read(who) => {
            if 0 <= who < world.readers.len() {
                let actor = world.readers[who];
                assert(reader_coherent(world, placement, actor));
                assert forall|r: int| 0 <= r < next.readers.len() implies reader_coherent(
                    next,
                    placement,
                    #[trigger] next.readers[r],
                ) by {
                    if r == who {
                        match actor.progress {
                            ReadProgress::Seeking { step } => {
                                lemma_probe_unfolds(actor.start, step, capacity);
                            },
                            ReadProgress::Reading { index } => {},
                            ReadProgress::Returned { found } => {},
                        }
                    } else {
                        assert(reader_coherent(world, placement, world.readers[r]));
                    }
                }
            }
        },
    }
}

/// Coherence holds at every moment of every execution.
pub proof fn run_keeps_coherent(world: World, placement: Placement, schedule: Seq<Turn>)
    requires
        coherent(world, placement),
    ensures
        coherent(run(world, schedule), placement),
    decreases schedule.len(),
{
    if schedule.len() > 0 {
        run_keeps_coherent(world, placement, schedule.drop_last());
        turn_keeps_coherent(run(world, schedule.drop_last()), placement, schedule.last());
    }
}

} // verus!
