//! How many keys a table holds, and how that bounds what it accepts.

use vstd::prelude::*;
use crate::access::Slot;
use crate::placement::Placement;
use crate::sequential::model::{binds, contents, landing, occupied, placed, settled};

verus! {

/// The keys that the first `upto` slots hold.
pub open spec fn keys_upto(slots: Seq<Slot>, upto: nat) -> Set<u32>
    decreases upto,
{
    if upto == 0 {
        Set::empty()
    } else if slots[upto - 1].key != 0 {
        keys_upto(slots, (upto - 1) as nat).insert(slots[upto - 1].key)
    } else {
        keys_upto(slots, (upto - 1) as nat)
    }
}

/// The keys of the first `upto` slots are those that one of them holds.
pub proof fn lemma_keys_upto(slots: Seq<Slot>, upto: nat)
    requires
        upto <= slots.len(),
    ensures
        forall|key: u32|
            keys_upto(slots, upto).contains(key) <==> key != 0 && exists|i: int|
                0 <= i < upto && (#[trigger] slots[i]).key == key,
        keys_upto(slots, upto).finite(),
    decreases upto,
{
    if upto > 0 {
        lemma_keys_upto(slots, (upto - 1) as nat);
        let last = slots[upto - 1];
        assert forall|key: u32|
            keys_upto(slots, upto).contains(key) <==> key != 0 && exists|i: int|
                0 <= i < upto && (#[trigger] slots[i]).key == key by {
            if key != 0 && exists|i: int| 0 <= i < upto && (#[trigger] slots[i]).key == key {
                let i = choose|i: int| 0 <= i < upto && (#[trigger] slots[i]).key == key;
                if i < upto - 1 {
                    assert(keys_upto(slots, (upto - 1) as nat).contains(key));
                }
            }
        }
    }
}

/// When every key is placed no two slots hold the same key, so the first
/// `upto` slots hold as many keys as there are slots with a key among them.
pub proof fn lemma_keys_counted(slots: Seq<Slot>, placement: Placement, upto: nat)
    requires
        placed(slots, placement),
        upto <= slots.len(),
    ensures
        keys_upto(slots, upto).finite(),
        keys_upto(slots, upto).len() == occupied(slots, upto),
        occupied(slots, upto) <= upto,
    decreases upto,
{
    lemma_keys_upto(slots, upto);
    if upto > 0 {
        lemma_keys_counted(slots, placement, (upto - 1) as nat);
        lemma_keys_upto(slots, (upto - 1) as nat);
        let held = slots[upto - 1].key;
        if held != 0 {
            if keys_upto(slots, (upto - 1) as nat).contains(held) {
                let i = choose|i: int| 0 <= i < upto - 1 && (#[trigger] slots[i]).key == held;
                assert(landing(slots, placement, slots[i].key) == Some(i));
                assert(landing(slots, placement, slots[upto - 1].key) == Some(upto - 1));
            }
        }
    }
}

/// The keys of a settled table are those that its map binds.
pub proof fn lemma_keys_are_bound(slots: Seq<Slot>, placement: Placement)
    requires
        settled(slots, placement),
    ensures
        contents(slots).dom() == keys_upto(slots, slots.len()),
        contents(slots).dom().finite(),
        contents(slots).dom().len() == occupied(slots, slots.len()),
        occupied(slots, slots.len()) <= slots.len(),
{
    lemma_keys_upto(slots, slots.len());
    lemma_keys_counted(slots, placement, slots.len());
    assert forall|key: u32|
        contents(slots).dom().contains(key) <==> keys_upto(slots, slots.len()).contains(
            key,
        ) by {
        if contents(slots).dom().contains(key) {
            let i = choose|i: int| binds(slots, i, key);
            assert(slots[i].key == key);
        }
        if keys_upto(slots, slots.len()).contains(key) {
            let i = choose|i: int| 0 <= i < slots.len() && (#[trigger] slots[i]).key == key;
            assert(binds(slots, i, key));
        }
    }
    assert(contents(slots).dom() =~= keys_upto(slots, slots.len()));
}

/// A table with fewer keys than slots has a vacant slot, and a table with a
/// vacant slot has fewer keys than slots.
pub proof fn lemma_vacancy(slots: Seq<Slot>, upto: nat)
    requires
        upto <= slots.len(),
    ensures
        occupied(slots, upto) <= upto,
        occupied(slots, upto) < upto <==> exists|i: int|
            0 <= i < upto && (#[trigger] slots[i]).key == 0,
    decreases upto,
{
    if upto > 0 {
        lemma_vacancy(slots, (upto - 1) as nat);
        if exists|i: int| 0 <= i < upto && (#[trigger] slots[i]).key == 0 {
            let i = choose|i: int| 0 <= i < upto && (#[trigger] slots[i]).key == 0;
            if i < upto - 1 {
                assert(occupied(slots, (upto - 1) as nat) < upto - 1);
            }
        }
        if occupied(slots, upto) < upto {
            if slots[upto - 1].key != 0 {
                let i = choose|i: int| 0 <= i < upto - 1 && (#[trigger] slots[i]).key == 0;
                assert(slots[i].key == 0);
            } else {
                assert(slots[upto - 1].key == 0);
            }
        }
    }
}

} // verus!
