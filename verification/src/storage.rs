//! Component storage: one sparse column of values, keyed by entity slot.
//!
//! A storage holds at most one value per entity slot.  Slots it has never
//! been told about read as absent, so the column is sparse even though it is
//! backed by a dense vector.

use vstd::prelude::*;
use vstd::pervasive::VecAdditionalExecFns;
use crate::entity::Entity;
use crate::value::{Kind, Value};

verus! {

/// A sparse mapping from entity slot to component value.
pub struct Storage {
    /// One slot per entity index seen so far; `None` marks an absent value.
    pub slots: Vec<Option<Value>>,
}

/// The value at position `idx` of a slot sequence, absent outside it.
pub open spec fn slot_get(slots: Seq<Option<Value>>, idx: int) -> Option<Value> {
    if 0 <= idx < slots.len() {
        slots[idx]
    } else {
        None
    }
}

/// A run of `n` absent slots.
pub open spec fn absent_fill(n: nat) -> Seq<Option<Value>> {
    Seq::new(n, |_i: int| None::<Value>)
}

/// The slot sequence extended with absent slots until position `idx` exists.
pub open spec fn spec_grow(slots: Seq<Option<Value>>, idx: int) -> Seq<Option<Value>> {
    if idx < slots.len() {
        slots
    } else {
        slots + absent_fill((idx + 1 - slots.len()) as nat)
    }
}

/// The slot sequence after writing `v` at position `idx`, growing the
/// sequence with absent slots first if it is too short.
pub open spec fn spec_set(slots: Seq<Option<Value>>, idx: int, v: Value) -> Seq<Option<Value>> {
    spec_grow(slots, idx).update(idx, Some(v))
}

/// Writing at `idx` stores the value there and changes no other slot.
pub proof fn lemma_set_get(slots: Seq<Option<Value>>, idx: int, v: Value)
    requires
        0 <= idx,
    ensures
        slot_get(spec_set(slots, idx, v), idx) == Some(v),
        forall|k: int| k != idx ==> slot_get(spec_set(slots, idx, v), k) == slot_get(slots, k),
{
    let grown = spec_grow(slots, idx);
    assert forall|k: int| k != idx implies slot_get(spec_set(slots, idx, v), k) == slot_get(
        slots,
        k,
    ) by {
        if 0 <= k < grown.len() {
            if k >= slots.len() {
                assert(grown[k] == absent_fill((idx + 1 - slots.len()) as nat)[k - slots.len()]);
            }
        }
    }
}

impl Storage {
    /// The value stored for slot `idx`, absent outside the backing vector.
    pub open spec fn spec_get(self, idx: int) -> Option<Value> {
        slot_get(self.slots@, idx)
    }

    /// Every stored value has shape `kind`.
    pub open spec fn wf(self, kind: Kind) -> bool {
        forall|i: int|
            0 <= i < self.slots@.len() && (#[trigger] self.slots@[i]) is Some
                ==> self.slots@[i]->Some_0.spec_kind() == kind
    }

    /// An empty storage: every slot reads as absent.
    pub fn new() -> (s: Storage)
        ensures
            s.slots@.len() == 0,
            forall|i: int| s.spec_get(i) is None,
    {
        Storage { slots: Vec::new() }
    }

    /// Reads the value stored for `e`'s slot.
    pub fn get(&self, e: Entity) -> (r: Option<&Value>)
        ensures
            match r {
                Some(v) => self.spec_get(e.index as int) == Some(*v),
                None => self.spec_get(e.index as int) is None,
            },
    {
        let idx = e.index as usize;
        if idx < self.slots.len() {
            match &self.slots[idx] {
                Some(v) => Some(v),
                None => None,
            }
        } else {
            None
        }
    }

    /// Writes `v` as the value for `e`'s slot, growing the column if needed.
    pub fn set(&mut self, e: Entity, v: Value)
        ensures
            final(self).slots@ == spec_set(old(self).slots@, e.index as int, v),
    {
        let idx = e.index as usize;
        let ghost grown = spec_grow(old(self).slots@, idx as int);
        while self.slots.len() <= idx
            invariant
                grown == spec_grow(old(self).slots@, idx as int),
                self.slots@ == grown.take(self.slots@.len() as int),
                old(self).slots@.len() <= self.slots@.len(),
                self.slots@.len() <= grown.len(),
                idx < grown.len(),
            decreases idx + 1 - self.slots@.len(),
        {
            proof {
                let len = self.slots@.len() as int;
                let old_len = old(self).slots@.len() as int;
                let fill = absent_fill((idx + 1 - old_len) as nat);
                assert(old_len <= idx);
                assert(grown == old(self).slots@ + fill);
                assert(grown[len] == fill[len - old_len]);
                assert(grown[len] is None);
            }
            self.slots.push(None);
            proof {
                assert(self.slots@ =~= grown.take(self.slots@.len() as int));
            }
        }
        proof {
            if idx < old(self).slots@.len() {
                assert(grown.len() == old(self).slots@.len());
            } else {
                assert(grown.len() == idx + 1);
            }
            assert(self.slots@.len() == grown.len());
            assert(self.slots@ =~= grown);
        }
        self.slots.set(idx, Some(v));
    }
}

} // verus!
