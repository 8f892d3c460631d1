//! Executions: the slots, the calls in flight, and the accesses by which
//! they advance.
//!
//! Every access to a slot is sequentially consistent, so a concurrent
//! execution is one sequence of accesses, each made by one of the calls in
//! flight. A turn is one such access: the call names it, the slot answers
//! and changes as `returned` and `effect` say, and the call reacts.

use vstd::prelude::*;
use crate::access::{effect, returned, Slot};
use crate::call::{read_access, read_reaction, write_access, write_reaction, Reader, Writer};

verus! {

/// The slots together with every call that has begun.
pub struct World {
    pub slots: Seq<Slot>,
    pub writers: Seq<Writer>,
    pub readers: Seq<Reader>,
}

/// Whose access comes next.
pub enum Turn {
    /// The `set` call with this number.
    Write(int),
    /// The `get` call with this number.
    Read(int),
}

/// The slots after the next access of `writer`.
pub open spec fn slots_after_write(slots: Seq<Slot>, writer: Writer) -> Seq<Slot> {
    match write_access(writer) {
        Some((index, access)) => slots.update(index, effect(slots[index], access)),
        None => slots,
    }
}

/// The call `writer` after its next access.
pub open spec fn writer_after(slots: Seq<Slot>, writer: Writer) -> Writer {
    match write_access(writer) {
        Some((index, access)) => Writer {
            progress: write_reaction(writer, returned(slots[index], access)),
            ..writer
        },
        None => writer,
    }
}

/// The call `reader` after its next access, which changes no slot.
pub open spec fn reader_after(slots: Seq<Slot>, reader: Reader) -> Reader {
    match read_access(reader) {
        Some((index, access)) => Reader {
            progress: read_reaction(reader, returned(slots[index], access)),
            ..reader
        },
        None => reader,
    }
}

/// The world after one turn. A turn of a call that does not exist, or that
/// has returned, changes nothing.
pub open spec fn turn(world: World, whose: Turn) -> World {
    match whose {
        Turn::Write(who) => {
            if 0 <= who < world.writers.len() {
                World {
                    slots: slots_after_write(world.slots, world.writers[who]),
                    writers: world.writers.update(
                        who,
                        writer_after(world.slots, world.writers[who]),
                    ),
                    readers: world.readers,
                }
            } else {
                world
            }
        },
        Turn::Read(who) => {
            if 0 <= who < world.readers.len() {
                World {
                    slots: world.slots,
                    writers: world.writers,
                    readers: world.readers.update(
                        who,
                        reader_after(world.slots, world.readers[who]),
                    ),
                }
            } else {
                world
            }
        },
    }
}

/// The world after the turns of `schedule`, in order.
pub open spec fn run(world: World, schedule: Seq<Turn>) -> World
    decreases schedule.len(),
{
    if schedule.len() == 0 {
        world
    } else {
        turn(run(world, schedule.drop_last()), schedule.last())
    }
}

/// The first `count` turns of a schedule.
pub open spec fn prefix(schedule: Seq<Turn>, count: int) -> Seq<Turn> {
    schedule.subrange(0, count)
}

/// `turns` turns in a row of one call.
pub open spec fn alone(whose: Turn, turns: nat) -> Seq<Turn> {
    Seq::new(turns, |i: int| whose)
}

} // verus!
