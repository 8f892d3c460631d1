//! One slot of the table: a key field and a value field, each atomic by itself.

use std::sync::atomic::AtomicU32;
use std::sync::atomic::Ordering;
use vstd::prelude::*;
use crate::access::{returned, Access, Slot};

verus! {

/// A slot. Zero in the key field means that no key has claimed the slot;
/// zero in the value field means that no value has been stored yet.
///
/// The two fields change independently, and other threads may write between
/// any two accesses: nothing is known here of what a slot holds. What the
/// accesses do to a slot is said over plain values, by `returned` and
/// `effect` in `access`.
#[derive(Debug)]
pub(crate) struct Entry {
    key: AtomicU32,
    value: AtomicU32,
}

impl Entry {
    /// A slot that no key has claimed.
    pub(crate) fn vacant() -> Entry {
        Entry { key: AtomicU32::new(0), value: AtomicU32::new(0) }
    }

    /// Makes one access, sequentially consistent, and answers as `returned`
    /// says of the slot as it was at that moment; a store answers zero.
    pub(crate) fn perform(&self, access: Access) -> (answer: u32)
        ensures
            exists|slot: Slot| #[trigger] returned(slot, access) == answer,
    {
        let answer = match access {
            Access::LoadKey => self.key.load(Ordering::SeqCst),
            Access::ClaimKey { key } => {
                match self.key.compare_exchange(0, key, Ordering::SeqCst, Ordering::SeqCst) {
                    Ok(previous) => previous,
                    Err(previous) => previous,
                }
            },
            Access::LoadValue => self.value.load(Ordering::SeqCst),
            Access::StoreValue { value } => {
                self.value.store(value, Ordering::SeqCst);
                0
            },
        };
        proof {
            let slot = Slot { key: answer, value: answer };
            assert(returned(slot, access) == answer);
        }
        answer
    }
}

} // verus!
