//! Packed component data: a positionally encoded, sparse component column.
//!
//! A packed column pairs positions into a caller-supplied entity slice with
//! the values those entities carry.  Packing walks the slice in order and
//! records every position whose entity has a value; merging writes each
//! recorded value back to the entity at its position, leaving every position
//! the column does not mention untouched.

use vstd::prelude::*;
use crate::entity::Entity;
use crate::error::DecodeError;
use crate::storage::{slot_get, spec_set, Storage};
use crate::storage::lemma_set_get;
use crate::value::{Kind, Value};

verus! {

/// A sparse component column, positionally aligned to an entity slice.
pub struct PackedData {
    /// Positions into the entity slice, in the order the values apply.
    pub offsets: Vec<u32>,
    /// The value for each listed position.
    pub values: Vec<Value>,
}

impl PackedData {
    /// A packed column is well shaped when each position has one value.
    pub open spec fn wf(self) -> bool {
        self.offsets@.len() == self.values@.len()
    }
}

/// The packed column over the first `n` positions of the entity slice:
/// every position whose entity has a stored value, in increasing order,
/// paired with that value.
pub open spec fn spec_pack(
    slots: Seq<Option<Value>>,
    entities: Seq<Entity>,
    n: int,
) -> (Seq<u32>, Seq<Value>)
    decreases n,
{
    if n <= 0 {
        (Seq::<u32>::empty(), Seq::<Value>::empty())
    } else {
        let rest = spec_pack(slots, entities, n - 1);
        match slot_get(slots, entities[n - 1].index as int) {
            Some(v) => (rest.0.push((n - 1) as u32), rest.1.push(v)),
            None => rest,
        }
    }
}

/// The positions of the packed column over the first `n` entity positions.
pub open spec fn pack_offsets(slots: Seq<Option<Value>>, entities: Seq<Entity>, n: int) -> Seq<
    u32,
> {
    spec_pack(slots, entities, n).0
}

/// The values of the packed column over the first `n` entity positions.
pub open spec fn pack_values(slots: Seq<Option<Value>>, entities: Seq<Entity>, n: int) -> Seq<
    Value,
> {
    spec_pack(slots, entities, n).1
}

/// The storage slot a merge step writes: the slot of the entity at the
/// column's `j`-th position.
pub open spec fn merge_target(entities: Seq<Entity>, offsets: Seq<u32>, j: int) -> int {
    entities[offsets[j] as int].index as int
}

/// The validation a merge performs before touching storage: the column must
/// be well shaped, stay inside the entity slice, and carry values of the
/// storage's shape.  The first failed check names the error.
pub open spec fn merge_check(
    entities: Seq<Entity>,
    offsets: Seq<u32>,
    values: Seq<Value>,
    kind: Kind,
) -> Option<DecodeError> {
    if offsets.len() != values.len() {
        Some(DecodeError::SchemaMismatch)
    } else if exists|j: int| 0 <= j < offsets.len() && offsets[j] >= entities.len() {
        Some(DecodeError::EntityCountMismatch)
    } else if exists|j: int| 0 <= j < values.len() && values[j].spec_kind() != kind {
        Some(DecodeError::SchemaMismatch)
    } else {
        None
    }
}

/// The slot sequence after applying the first `n` column entries in order:
/// each step writes the entry's value at its entity's slot.
pub open spec fn spec_merge(
    slots: Seq<Option<Value>>,
    entities: Seq<Entity>,
    offsets: Seq<u32>,
    values: Seq<Value>,
    n: int,
) -> Seq<Option<Value>>
    decreases n,
{
    if n <= 0 {
        slots
    } else {
        spec_set(
            spec_merge(slots, entities, offsets, values, n - 1),
            merge_target(entities, offsets, n - 1),
            values[n - 1],
        )
    }
}

/// Sparse semantics of merging: a slot that no column entry targets keeps
/// its value.
pub proof fn lemma_merge_untouched(
    slots: Seq<Option<Value>>,
    entities: Seq<Entity>,
    offsets: Seq<u32>,
    values: Seq<Value>,
    n: int,
)
    requires
        0 <= n,
    ensures
        forall|idx: int|
            (forall|j: int| 0 <= j < n ==> #[trigger] merge_target(entities, offsets, j) != idx)
                ==> slot_get(#[trigger] spec_merge(slots, entities, offsets, values, n), idx)
                == slot_get(slots, idx),
    decreases n,
{
    if n > 0 {
        lemma_merge_untouched(slots, entities, offsets, values, n - 1);
        let prev = spec_merge(slots, entities, offsets, values, n - 1);
        let tgt = merge_target(entities, offsets, n - 1);
        lemma_set_get(prev, tgt, values[n - 1]);
        assert forall|idx: int|
            (forall|j: int| 0 <= j < n ==> #[trigger] merge_target(entities, offsets, j)
                != idx) implies slot_get(
            spec_merge(slots, entities, offsets, values, n),
            idx,
        ) == slot_get(slots, idx) by {
            assert(merge_target(entities, offsets, n - 1) != idx);
        }
    }
}

/// Overwriting semantics of merging: when no two column entries target the
/// same slot, each targeted slot ends up holding that entry's value.
pub proof fn lemma_merge_written(
    slots: Seq<Option<Value>>,
    entities: Seq<Entity>,
    offsets: Seq<u32>,
    values: Seq<Value>,
    n: int,
)
    requires
        0 <= n <= values.len(),
        forall|j: int, k: int|
            0 <= j < k < n ==> merge_target(entities, offsets, j) != merge_target(
                entities,
                offsets,
                k,
            ),
    ensures
        forall|j: int|
            0 <= j < n ==> slot_get(
                spec_merge(slots, entities, offsets, values, n),
                #[trigger] merge_target(entities, offsets, j),
            ) == Some(values[j]),
    decreases n,
{
    if n > 0 {
        lemma_merge_written(slots, entities, offsets, values, n - 1);
        let prev = spec_merge(slots, entities, offsets, values, n - 1);
        let tgt = merge_target(entities, offsets, n - 1);
        lemma_set_get(prev, tgt, values[n - 1]);
    }
}

/// What packing promises: one value per position, positions strictly
/// increasing within the slice, each value the one its entity stores, and a
/// position listed exactly when its entity stores a value.
pub proof fn lemma_pack_props(slots: Seq<Option<Value>>, entities: Seq<Entity>, n: int)
    requires
        0 <= n <= entities.len() <= u32::MAX,
    ensures
        pack_offsets(slots, entities, n).len() == pack_values(slots, entities, n).len(),
        forall|p: int|
            0 <= p < pack_offsets(slots, entities, n).len() ==> 0 <= (#[trigger] pack_offsets(
                slots,
                entities,
                n,
            )[p]) < n,
        forall|p: int, q: int|
            0 <= p < q < pack_offsets(slots, entities, n).len() ==> pack_offsets(
                slots,
                entities,
                n,
            )[p] < pack_offsets(slots, entities, n)[q],
        forall|p: int|
            0 <= p < pack_offsets(slots, entities, n).len() ==> slot_get(
                slots,
                entities[(#[trigger] pack_offsets(slots, entities, n)[p]) as int].index as int,
            ) == Some(pack_values(slots, entities, n)[p]),
        forall|i: int|
            0 <= i < n ==> ((slot_get(slots, entities[i].index as int) is Some) <==> exists|p: int|
                0 <= p < pack_offsets(slots, entities, n).len() && (#[trigger] pack_offsets(
                    slots,
                    entities,
                    n,
                )[p]) == i),
    decreases n,
{
    if n > 0 {
        lemma_pack_props(slots, entities, n - 1);
        let rest_o = pack_offsets(slots, entities, n - 1);
        let offs = pack_offsets(slots, entities, n);
        if slot_get(slots, entities[n - 1].index as int) is Some {
            assert(offs == rest_o.push((n - 1) as u32));
            assert forall|i: int|
                0 <= i < n implies ((slot_get(slots, entities[i].index as int) is Some)
                <==> exists|p: int| 0 <= p < offs.len() && (#[trigger] offs[p]) == i) by {
                if i == n - 1 {
                    assert(offs[offs.len() - 1] == i);
                } else {
                    if slot_get(slots, entities[i].index as int) is Some {
                        let p = choose|p: int| 0 <= p < rest_o.len() && rest_o[p] == i;
                        assert(offs[p] == i);
                    }
                    if exists|p: int| 0 <= p < offs.len() && offs[p] == i {
                        let p = choose|p: int| 0 <= p < offs.len() && offs[p] == i;
                        assert(p < rest_o.len());
                        assert(rest_o[p] == i);
                    }
                }
            }
        } else {
            assert(offs == rest_o);
        }
    }
}

/// Merging a packed column into another storage reproduces the packed
/// storage's values at every slice position it covers and leaves every
/// other slice position as the target had it.
pub proof fn lemma_merge_of_pack(
    slots1: Seq<Option<Value>>,
    slots2: Seq<Option<Value>>,
    entities: Seq<Entity>,
)
    requires
        crate::entity::distinct_indices(entities),
        entities.len() <= u32::MAX,
    ensures
        forall|i: int|
            0 <= i < entities.len() ==> slot_get(
                spec_merge(
                    slots2,
                    entities,
                    pack_offsets(slots1, entities, entities.len() as int),
                    pack_values(slots1, entities, entities.len() as int),
                    pack_offsets(slots1, entities, entities.len() as int).len() as int,
                ),
                (#[trigger] entities[i]).index as int,
            ) == (if slot_get(slots1, entities[i].index as int) is Some {
                slot_get(slots1, entities[i].index as int)
            } else {
                slot_get(slots2, entities[i].index as int)
            }),
{
    let n = entities.len() as int;
    let offs = pack_offsets(slots1, entities, n);
    let vals = pack_values(slots1, entities, n);
    lemma_pack_props(slots1, entities, n);
    assert forall|p: int, q: int|
        0 <= p < q < offs.len() implies merge_target(entities, offs, p) != merge_target(
        entities,
        offs,
        q,
    ) by {
        assert(offs[p] < offs[q]);
        assert(entities[offs[p] as int].index != entities[offs[q] as int].index);
    }
    lemma_merge_written(slots2, entities, offs, vals, offs.len() as int);
    lemma_merge_untouched(slots2, entities, offs, vals, offs.len() as int);
    let merged = spec_merge(slots2, entities, offs, vals, offs.len() as int);
    assert forall|i: int|
        0 <= i < entities.len() implies slot_get(merged, (#[trigger] entities[i]).index as int)
        == (if slot_get(slots1, entities[i].index as int) is Some {
        slot_get(slots1, entities[i].index as int)
    } else {
        slot_get(slots2, entities[i].index as int)
    }) by {
        if slot_get(slots1, entities[i].index as int) is Some {
            let p = choose|p: int| 0 <= p < offs.len() && offs[p] == i;
            assert(merge_target(entities, offs, p) == entities[i].index as int);
            assert(slot_get(merged, merge_target(entities, offs, p)) == Some(vals[p]));
        } else {
            assert forall|p: int| 0 <= p < offs.len() implies #[trigger] merge_target(
                entities,
                offs,
                p,
            ) != entities[i].index as int by {
                if offs[p] == i {
                    assert(slot_get(slots1, entities[i].index as int) is Some);
                } else {
                    assert(entities[offs[p] as int].index != entities[i].index);
                }
            }
        }
    }
}

/// A packed column always passes merge validation against a storage of the
/// shape it was packed from.
pub proof fn lemma_pack_merges(
    slots1: Seq<Option<Value>>,
    entities: Seq<Entity>,
    kind: Kind,
)
    requires
        entities.len() <= u32::MAX,
        forall|i: int|
            0 <= i < slots1.len() && (#[trigger] slots1[i]) is Some ==> slots1[i]->Some_0.spec_kind()
                == kind,
    ensures
        merge_check(
            entities,
            pack_offsets(slots1, entities, entities.len() as int),
            pack_values(slots1, entities, entities.len() as int),
            kind,
        ) is None,
{
    let n = entities.len() as int;
    let offs = pack_offsets(slots1, entities, n);
    let vals = pack_values(slots1, entities, n);
    lemma_pack_props(slots1, entities, n);
    assert forall|p: int| 0 <= p < vals.len() implies (#[trigger] vals[p]).spec_kind()
        == kind by {
        assert(slot_get(slots1, entities[offs[p] as int].index as int) == Some(vals[p]));
    }
    assert forall|p: int| 0 <= p < offs.len() implies (#[trigger] offs[p]) < entities.len() by {}
}

impl PackedData {
    /// Packs the column of `storage` restricted to `entities`: every
    /// position of the slice whose entity has a value appears, in order.
    pub fn pack(storage: &Storage, entities: &Vec<Entity>) -> (p: PackedData)
        requires
            entities@.len() <= u32::MAX,
        ensures
            p.offsets@ == pack_offsets(storage.slots@, entities@, entities@.len() as int),
            p.values@ == pack_values(storage.slots@, entities@, entities@.len() as int),
            p.wf(),
    {
        let mut offsets: Vec<u32> = Vec::new();
        let mut values: Vec<Value> = Vec::new();
        let mut i: usize = 0;
        while i < entities.len()
            invariant
                i <= entities@.len(),
                entities@.len() <= u32::MAX,
                offsets@ == pack_offsets(storage.slots@, entities@, i as int),
                values@ == pack_values(storage.slots@, entities@, i as int),
            decreases entities@.len() - i,
        {
            let e = entities[i];
            match storage.get(e) {
                Some(v) => {
                    offsets.push(i as u32);
                    values.push(v.dup());
                },
                None => {},
            }
            i = i + 1;
        }
        proof {
            assert(offsets@.len() == values@.len()) by {
                lemma_pack_shape(storage.slots@, entities@, i as int);
            }
        }
        PackedData { offsets, values }
    }
}

/// A packed column pairs exactly one value with each listed position.
pub proof fn lemma_pack_shape(slots: Seq<Option<Value>>, entities: Seq<Entity>, n: int)
    ensures
        pack_offsets(slots, entities, n).len() == pack_values(slots, entities, n).len(),
    decreases n,
{
    if n > 0 {
        lemma_pack_shape(slots, entities, n - 1);
    }
}

impl Storage {
    /// Merges a packed column into this storage: validates the column, then
    /// writes each value at its entity's slot, in column order.  Positions of
    /// the slice the column does not mention are left untouched.  Validation
    /// happens before any write, so a failed merge changes nothing.
    pub fn merge(&mut self, entities: &Vec<Entity>, packed: &PackedData, kind: Kind) -> (r: Result<
        (),
        DecodeError,
    >)
        ensures
            match r {
                Ok(_) => merge_check(entities@, packed.offsets@, packed.values@, kind) is None
                    && final(self).slots@ == spec_merge(
                    old(self).slots@,
                    entities@,
                    packed.offsets@,
                    packed.values@,
                    packed.offsets@.len() as int,
                ),
                Err(e) => merge_check(entities@, packed.offsets@, packed.values@, kind) == Some(e)
                    && *final(self) == *old(self),
            },
    {
        if packed.offsets.len() != packed.values.len() {
            return Err(DecodeError::SchemaMismatch);
        }
        let mut j: usize = 0;
        while j < packed.offsets.len()
            invariant
                j <= packed.offsets@.len(),
                packed.offsets@.len() == packed.values@.len(),
                forall|k: int| 0 <= k < j ==> (#[trigger] packed.offsets@[k]) < entities@.len(),
                *self == *old(self),
            decreases packed.offsets@.len() - j,
        {
            if packed.offsets[j] as usize >= entities.len() {
                return Err(DecodeError::EntityCountMismatch);
            }
            j = j + 1;
        }
        let mut j: usize = 0;
        while j < packed.values.len()
            invariant
                j <= packed.values@.len(),
                packed.offsets@.len() == packed.values@.len(),
                forall|k: int| 0 <= k < j ==> (#[trigger] packed.values@[k]).spec_kind() == kind,
                forall|k: int|
                    0 <= k < packed.offsets@.len() ==> (#[trigger] packed.offsets@[k])
                        < entities@.len(),
                *self == *old(self),
            decreases packed.values@.len() - j,
        {
            if !(packed.values[j].kind() == kind) {
                return Err(DecodeError::SchemaMismatch);
            }
            j = j + 1;
        }
        let ghost offs = packed.offsets@;
        let ghost vals = packed.values@;
        let mut j: usize = 0;
        while j < packed.offsets.len()
            invariant
                j <= offs.len(),
                offs == packed.offsets@,
                vals == packed.values@,
                offs.len() == vals.len(),
                forall|k: int| 0 <= k < offs.len() ==> (#[trigger] offs[k]) < entities@.len(),
                self.slots@ == spec_merge(old(self).slots@, entities@, offs, vals, j as int),
            decreases offs.len() - j,
        {
            let off = packed.offsets[j] as usize;
            let e = entities[off];
            self.set(e, packed.values[j].dup());
            j = j + 1;
        }
        Ok(())
    }
}

} // verus!
