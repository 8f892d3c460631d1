//! Calls that run one after another, each from its first access to its
//! return with no access of another call in between, do what the sequential
//! meaning of the operations says.

use vstd::prelude::*;
use crate::access::Slot;
use crate::call::{
    read_turns_left, reader_at_start, write_outcome, write_turns_left, writer_at_start,
    ReadProgress, Reader, WriteProgress, Writer,
};
use crate::concurrent::coherence::passed;
use crate::concurrent::laws::finished;
use crate::concurrent::protocol::{alone, run, slots_after_write, writer_after, Turn, World};
use crate::error::TableError;
use crate::placement::{probe_index, start_index, Placement};
use crate::sequential::laws::{overwrite, round_trip};
use crate::sequential::model::{after_set, blocked_at, get_outcome, landing, set_outcome};
use crate::sequential::search::{
    lemma_hit_step_found, lemma_hit_step_none, lemma_landing, lemma_probe_unfolds,
    lemma_start_in_range,
};

verus! {

/// How the slots `now` and the progress of a `set` call relate to the slots
/// `before` the call, when no other call has made an access since it began.
spec fn set_on_track(
    before: Seq<Slot>,
    placement: Placement,
    now: Seq<Slot>,
    writer: Writer,
) -> bool {
    &&& writer.capacity == before.len()
    &&& writer.start == start_index(placement, writer.key, before.len())
    &&& match writer.progress {
        WriteProgress::Probing { step } => {
            &&& now == before
            &&& step < before.len()
            &&& passed(before, writer.key, writer.start, step)
        },
        WriteProgress::Claiming { step } => {
            &&& now == before
            &&& step < before.len()
            &&& passed(before, writer.key, writer.start, step)
            &&& before[probe_index(writer.start, step, before.len()) as int].key == 0
        },
        WriteProgress::Storing { index } => {
            &&& landing(before, placement, writer.key) == Some(index)
            &&& now == before.update(
                index,
                Slot { key: writer.key, value: before[index].value },
            )
        },
        WriteProgress::Stored { index } => {
            &&& landing(before, placement, writer.key) == Some(index)
            &&& now == before.update(index, Slot { key: writer.key, value: writer.value })
        },
        WriteProgress::Exhausted => {
            &&& landing(before, placement, writer.key) is None
            &&& now == before
        },
    }
}

/// One more turn of a `set` call that runs alone keeps it on track.
proof fn lemma_set_stays_on_track(
    before: Seq<Slot>,
    placement: Placement,
    now: Seq<Slot>,
    writer: Writer,
)
    requires
        before.len() > 0,
        writer.key != 0,
        set_on_track(before, placement, now, writer),
    ensures
        set_on_track(before, placement, slots_after_write(now, writer), writer_after(now, writer)),
        finished(writer) || write_turns_left(writer_after(now, writer)) < write_turns_left(
            writer,
        ),
{
    let capacity = before.len();
    let start = writer.start;
    lemma_start_in_range(placement, writer.key, capacity);
    match writer.progress {
        WriteProgress::Probing { step } => {
            lemma_probe_unfolds(start, step, capacity);
            let index = probe_index(start, step, capacity) as int;
            assert(slots_after_write(now, writer) =~= now);
            if before[index].key == writer.key {
                lemma_hit_step_found(before, writer.key, start, 0, step);
                assert(before =~= before.update(
                    index,
                    Slot { key: writer.key, value: before[index].value },
                ));
            } else if before[index].key != 0 && step + 1 >= capacity {
                lemma_hit_step_none(before, writer.key, start, 0);
            }
        },
        WriteProgress::Claiming { step } => {
            lemma_probe_unfolds(start, step, capacity);
            lemma_hit_step_found(before, writer.key, start, 0, step);
        },
        WriteProgress::Storing { index } => {
            lemma_landing(before, placement, writer.key);
            assert(now.update(index, Slot { key: now[index].key, value: writer.value })
                =~= before.update(index, Slot { key: writer.key, value: writer.value }));
        },
        WriteProgress::Stored { index } => {},
        WriteProgress::Exhausted => {},
    }
}

/// A `set` call that runs alone stays on track and uses up its turns.
proof fn lemma_set_alone(world: World, placement: Placement, w: int, turns: nat)
    requires
        world.slots.len() > 0,
        0 <= w < world.writers.len(),
        world.writers[w].key != 0,
        world.writers[w] == writer_at_start(
            placement,
            world.writers[w].key,
            world.writers[w].value,
            world.slots.len(),
        ),
    ensures
        ({
            let end = run(world, alone(Turn::Write(w), turns));
            &&& end.writers.len() == world.writers.len()
            &&& end.writers[w].key == world.writers[w].key
            &&& end.writers[w].value == world.writers[w].value
            &&& set_on_track(world.slots, placement, end.slots, end.writers[w])
            &&& finished(end.writers[w]) || write_turns_left(end.writers[w]) + turns <= 2
                * world.slots.len() + 1
        }),
    decreases turns,
{
    if turns > 0 {
        let shorter = alone(Turn::Write(w), (turns - 1) as nat);
        assert(alone(Turn::Write(w), turns).drop_last() =~= shorter);
        lemma_set_alone(world, placement, w, (turns - 1) as nat);
        let middle = run(world, shorter);
        lemma_set_stays_on_track(world.slots, placement, middle.slots, middle.writers[w]);
    }
}

/// A `set` call that no other call interrupts does what the sequential
/// meaning of `set` says: after at most two accesses per slot and one more
/// it has returned, the slots are those after `set`, and it has returned
/// what `set` returns.
pub proof fn undisturbed_set_is_sequential(
    world: World,
    placement: Placement,
    w: int,
    turns: nat,
)
    requires
        world.slots.len() > 0,
        0 <= w < world.writers.len(),
        world.writers[w].key != 0,
        world.writers[w].value != 0,
        world.writers[w] == writer_at_start(
            placement,
            world.writers[w].key,
            world.writers[w].value,
            world.slots.len(),
        ),
        turns >= 2 * world.slots.len() + 1,
    ensures
        ({
            let end = run(world, alone(Turn::Write(w), turns));
            let key = world.writers[w].key;
            let value = world.writers[w].value;
            &&& end.slots == after_set(world.slots, placement, key, value)
            &&& write_outcome(end.writers[w].progress) == Some(
                set_outcome(world.slots, placement, key, value),
            )
        }),
{
    lemma_set_alone(world, placement, w, turns);
    let end = run(world, alone(Turn::Write(w), turns));
    lemma_landing(world.slots, placement, world.writers[w].key);
    assert(set_on_track(world.slots, placement, end.slots, end.writers[w]));
}

/// How the progress of a `get` call relates to the slots when no other call
/// has made an access since it began.
spec fn get_on_track(slots: Seq<Slot>, placement: Placement, reader: Reader) -> bool {
    &&& reader.capacity == slots.len()
    &&& reader.start == start_index(placement, reader.key, slots.len())
    &&& match reader.progress {
        ReadProgress::Seeking { step } => {
            &&& step < slots.len()
            &&& passed(slots, reader.key, reader.start, step)
        },
        ReadProgress::Reading { index } => {
            &&& landing(slots, placement, reader.key) == Some(index)
            &&& slots[index].key == reader.key
        },
        ReadProgress::Returned { found } => get_outcome(slots, placement, reader.key) == Ok::<
            Option<u32>,
            TableError,
        >(found),
    }
}

/// A `get` call that runs alone stays on track and uses up its turns.
proof fn lemma_get_alone(world: World, placement: Placement, r: int, turns: nat)
    requires
        world.slots.len() > 0,
        0 <= r < world.readers.len(),
        world.readers[r].key != 0,
        world.readers[r] == reader_at_start(placement, world.readers[r].key, world.slots.len()),
    ensures
        ({
            let end = run(world, alone(Turn::Read(r), turns));
            &&& end.slots == world.slots
            &&& end.readers.len() == world.readers.len()
            &&& end.readers[r].key == world.readers[r].key
            &&& get_on_track(world.slots, placement, end.readers[r])
            &&& end.readers[r].progress is Returned || read_turns_left(end.readers[r]) + turns
                <= world.slots.len() + 1
        }),
    decreases turns,
{
    if turns > 0 {
        let shorter = alone(Turn::Read(r), (turns - 1) as nat);
        assert(alone(Turn::Read(r), turns).drop_last() =~= shorter);
        lemma_get_alone(world, placement, r, (turns - 1) as nat);
        let middle = run(world, shorter);
        let reader = middle.readers[r];
        let capacity = world.slots.len();
        let start = reader.start;
        lemma_start_in_range(placement, reader.key, capacity);
        match reader.progress {
            ReadProgress::Seeking { step } => {
                lemma_probe_unfolds(start, step, capacity);
                if !blocked_at(world.slots, reader.key, start, step) {
                    lemma_hit_step_found(world.slots, reader.key, start, 0, step);
                } else if step + 1 >= capacity {
                    lemma_hit_step_none(world.slots, reader.key, start, 0);
                }
            },
            ReadProgress::Reading { index } => {},
            ReadProgress::Returned { found } => {},
        }
    }
}

/// A `get` call that no other call interrupts does what the sequential
/// meaning of `get` says: after at most one access per slot and one more it
/// has returned what `get` returns on the slots, which it leaves as they
/// were.
pub proof fn undisturbed_get_is_sequential(
    world: World,
    placement: Placement,
    r: int,
    turns: nat,
)
    requires
        world.slots.len() > 0,
        0 <= r < world.readers.len(),
        world.readers[r].key != 0,
        world.readers[r] == reader_at_start(placement, world.readers[r].key, world.slots.len()),
        turns >= world.slots.len() + 1,
    ensures
        ({
            let end = run(world, alone(Turn::Read(r), turns));
            &&& end.slots == world.slots
            &&& end.readers[r].progress matches ReadProgress::Returned { found }
            &&& get_outcome(world.slots, placement, world.readers[r].key) == Ok::<
                Option<u32>,
                TableError,
            >(found)
        }),
{
    lemma_get_alone(world, placement, r, turns);
}

/// An execution of one schedule after another is the execution of the two
/// joined.
pub proof fn run_in_two_parts(world: World, first: Seq<Turn>, second: Seq<Turn>)
    ensures
        run(world, first + second) == run(run(world, first), second),
    decreases second.len(),
{
    if second.len() == 0 {
        assert(first + second =~= first);
    } else {
        assert((first + second).drop_last() =~= first + second.drop_last());
        run_in_two_parts(world, first, second.drop_last());
    }
}

/// Turns of one `set` call leave every other call as it was.
proof fn lemma_alone_leaves_others(world: World, w: int, turns: nat)
    ensures
        run(world, alone(Turn::Write(w), turns)).readers == world.readers,
        run(world, alone(Turn::Write(w), turns)).writers.len() == world.writers.len(),
        forall|other: int|
            0 <= other < world.writers.len() && other != w ==> #[trigger] run(
                world,
                alone(Turn::Write(w), turns),
            ).writers[other] == world.writers[other],
    decreases turns,
{
    if turns > 0 {
        assert(alone(Turn::Write(w), turns).drop_last() =~= alone(
            Turn::Write(w),
            (turns - 1) as nat,
        ));
        lemma_alone_leaves_others(world, w, (turns - 1) as nat);
    }
}

/// Turns of one `get` call leave the slots and every `set` call as they
/// were.
proof fn lemma_reading_leaves_writers(world: World, r: int, turns: nat)
    ensures
        run(world, alone(Turn::Read(r), turns)).slots == world.slots,
        run(world, alone(Turn::Read(r), turns)).writers == world.writers,
    decreases turns,
{
    if turns > 0 {
        assert(alone(Turn::Read(r), turns).drop_last() =~= alone(
            Turn::Read(r),
            (turns - 1) as nat,
        ));
        lemma_reading_leaves_writers(world, r, (turns - 1) as nat);
    }
}

/// Round trip: when a `set(key, value)` call runs to its end and succeeds,
/// and a `get(key)` call then runs to its end, with no access of another
/// call in between, the `get` returns `value`.
pub proof fn round_trip_of_calls(
    world: World,
    placement: Placement,
    w: int,
    r: int,
    set_turns: nat,
    get_turns: nat,
)
    requires
        world.slots.len() > 0,
        0 <= w < world.writers.len(),
        0 <= r < world.readers.len(),
        world.writers[w].key != 0,
        world.writers[w].value != 0,
        world.writers[w] == writer_at_start(
            placement,
            world.writers[w].key,
            world.writers[w].value,
            world.slots.len(),
        ),
        world.readers[r] == reader_at_start(placement, world.writers[w].key, world.slots.len()),
        set_turns >= 2 * world.slots.len() + 1,
        get_turns >= world.slots.len() + 1,
    ensures
        ({
            let end = run(
                world,
                alone(Turn::Write(w), set_turns) + alone(Turn::Read(r), get_turns),
            );
            end.writers[w].progress is Stored ==> end.readers[r].progress == (
            ReadProgress::Returned { found: Some(world.writers[w].value) })
        }),
{
    let key = world.writers[w].key;
    let value = world.writers[w].value;
    let middle = run(world, alone(Turn::Write(w), set_turns));
    run_in_two_parts(world, alone(Turn::Write(w), set_turns), alone(Turn::Read(r), get_turns));
    undisturbed_set_is_sequential(world, placement, w, set_turns);
    lemma_alone_leaves_others(world, w, set_turns);
    lemma_landing(world.slots, placement, key);
    undisturbed_get_is_sequential(middle, placement, r, get_turns);
    lemma_reading_leaves_writers(middle, r, get_turns);
    if set_outcome(world.slots, placement, key, value) is Ok {
        round_trip(world.slots, placement, key, value);
    }
}

/// Overwrite: when two `set` calls for one key run to their ends one after
/// the other, and the first succeeds, then the second succeeds too, and a
/// `get` call for the key that then runs to its end returns the value of the
/// second.
pub proof fn overwrite_of_calls(
    world: World,
    placement: Placement,
    first: int,
    second: int,
    r: int,
    set_turns: nat,
    get_turns: nat,
)
    requires
        world.slots.len() > 0,
        0 <= first < world.writers.len(),
        0 <= second < world.writers.len(),
        first != second,
        0 <= r < world.readers.len(),
        world.writers[first].key != 0,
        world.writers[first].value != 0,
        world.writers[second].value != 0,
        world.writers[first] == writer_at_start(
            placement,
            world.writers[first].key,
            world.writers[first].value,
            world.slots.len(),
        ),
        world.writers[second] == writer_at_start(
            placement,
            world.writers[first].key,
            world.writers[second].value,
            world.slots.len(),
        ),
        world.readers[r] == reader_at_start(
            placement,
            world.writers[first].key,
            world.slots.len(),
        ),
        set_turns >= 2 * world.slots.len() + 1,
        get_turns >= world.slots.len() + 1,
    ensures
        ({
            let once = run(world, alone(Turn::Write(first), set_turns));
            let end = run(
                world,
                alone(Turn::Write(first), set_turns) + alone(Turn::Write(second), set_turns)
                    + alone(Turn::Read(r), get_turns),
            );
            once.writers[first].progress is Stored ==> {
                &&& end.writers[second].progress is Stored
                &&& end.readers[r].progress == (ReadProgress::Returned {
                    found: Some(world.writers[second].value),
                })
            }
        }),
{
    let key = world.writers[first].key;
    let one = alone(Turn::Write(first), set_turns);
    let two = alone(Turn::Write(second), set_turns);
    let three = alone(Turn::Read(r), get_turns);
    let once = run(world, one);
    let twice = run(once, two);
    run_in_two_parts(world, one, two);
    run_in_two_parts(world, one + two, three);
    undisturbed_set_is_sequential(world, placement, first, set_turns);
    lemma_alone_leaves_others(world, first, set_turns);
    lemma_landing(world.slots, placement, key);
    undisturbed_set_is_sequential(once, placement, second, set_turns);
    lemma_alone_leaves_others(once, second, set_turns);
    lemma_landing(once.slots, placement, key);
    undisturbed_get_is_sequential(twice, placement, r, get_turns);
    lemma_reading_leaves_writers(twice, r, get_turns);
    if set_outcome(world.slots, placement, key, world.writers[first].value) is Ok {
        overwrite(
            world.slots,
            placement,
            key,
            world.writers[first].value,
            world.writers[second].value,
        );
    }
}

} // verus!
