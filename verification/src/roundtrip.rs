//! The round-trip law: a serialized group deserializes back exactly.
//!
//! Serializing a group from one world and deserializing the result into a
//! second world with the same entities reproduces, for every component
//! identifier the group owns, the first world's per-entity values exactly —
//! a slice position with a value is overwritten with it, one without keeps
//! what the second world had — and touches no table outside the group.

use vstd::prelude::*;
use crate::decode::{slots_of, spec_apply_all};
use crate::encode::{all_registered, serialized_entries_ok};
use crate::entity::{distinct_indices, Entity};
use crate::group::contains_id;
use crate::packed::{lemma_merge_of_pack, lemma_pack_merges, pack_offsets, spec_merge, PackedData};
use crate::storage::slot_get;
use crate::value::Value;
use crate::world::{lemma_find_found, spec_find, Table};

verus! {

/// The preconditions the round trip rests on: the entries are a faithful
/// serialization of the first tables, both worlds register every component
/// of the (collision-free) list under the same value shape, the first
/// world's storages honor their shapes, the second world's are unlocked,
/// and the entity slice is within bounds with no slot shared.
pub open spec fn round_trip_pre(
    tables1: Seq<Table>,
    tables2: Seq<Table>,
    comps: Seq<Seq<char>>,
    entities: Seq<Entity>,
    entries: Seq<(String, PackedData)>,
) -> bool {
    &&& serialized_entries_ok(tables1, entities, comps, entries)
    &&& all_registered(tables1, comps)
    &&& all_registered(tables2, comps)
    &&& forall|k: int|
        0 <= k < comps.len() ==> {
            let j1 = spec_find(tables1, #[trigger] comps[k], 0)->Some_0;
            let j2 = spec_find(tables2, comps[k], 0)->Some_0;
            &&& tables2[j2].kind == tables1[j1].kind
            &&& tables1[j1].storage.wf(tables1[j1].kind)
            &&& tables2[j2].lock is Free
        }
    &&& distinct_indices(entities)
    &&& entities.len() <= u32::MAX
    &&& forall|k: int, l: int| 0 <= k < l < comps.len() ==> comps[k] != comps[l]
}

/// After the first `n` entries of a faithful serialization are applied: no
/// error yet, each handled component's storage holds the merge of its packed
/// column, and every other table's storage is untouched.
proof fn lemma_round_trip_aux(
    tables1: Seq<Table>,
    tables2: Seq<Table>,
    comps: Seq<Seq<char>>,
    entities: Seq<Entity>,
    entries: Seq<(String, PackedData)>,
    n: int,
)
    requires
        round_trip_pre(tables1, tables2, comps, entities, entries),
        0 <= n <= comps.len(),
    ensures
        spec_apply_all(tables2, slots_of(tables2), comps, entities, entries, n).1 is None,
        spec_apply_all(tables2, slots_of(tables2), comps, entities, entries, n).0.len()
            == tables2.len(),
        forall|k: int|
            0 <= k < n ==> {
                let jk = spec_find(tables2, #[trigger] comps[k], 0)->Some_0;
                spec_apply_all(tables2, slots_of(tables2), comps, entities, entries, n).0[jk]
                    == spec_merge(
                    tables2[jk].storage.slots@,
                    entities,
                    entries[k].1.offsets@,
                    entries[k].1.values@,
                    entries[k].1.offsets@.len() as int,
                )
            },
        forall|j: int|
            0 <= j < tables2.len() && (forall|k: int|
                0 <= k < n ==> spec_find(tables2, #[trigger] comps[k], 0) != Some(j)) ==> (
            #[trigger] spec_apply_all(tables2, slots_of(tables2), comps, entities, entries, n).0[j])
                == tables2[j].storage.slots@,
    decreases n,
{
    if n > 0 {
        lemma_round_trip_aux(tables1, tables2, comps, entities, entries, n - 1);
        let prev = spec_apply_all(tables2, slots_of(tables2), comps, entities, entries, n - 1);
        let cur = spec_apply_all(tables2, slots_of(tables2), comps, entities, entries, n);
        let key = comps[n - 1];
        let j1 = spec_find(tables1, key, 0)->Some_0;
        let j2 = spec_find(tables2, key, 0)->Some_0;
        lemma_find_found(tables1, key, 0);
        lemma_find_found(tables2, key, 0);
        assert(entries[n - 1].0@ == key);
        assert(contains_id(comps, key));
        // the first n-1 entries named other components, so table j2 is untouched
        assert forall|k: int| 0 <= k < n - 1 implies spec_find(tables2, #[trigger] comps[k], 0)
            != Some(j2) by {
            if spec_find(tables2, comps[k], 0) == Some(j2) {
                lemma_find_found(tables2, comps[k], 0);
            }
        }
        assert(prev.0[j2] == tables2[j2].storage.slots@);
        // the packed column validates against the second world's shape
        lemma_pack_merges(tables1[j1].storage.slots@, entities, tables1[j1].kind);
        assert(cur.0 == prev.0.update(
            j2,
            spec_merge(
                prev.0[j2],
                entities,
                entries[n - 1].1.offsets@,
                entries[n - 1].1.values@,
                entries[n - 1].1.offsets@.len() as int,
            ),
        ));
        assert forall|k: int| 0 <= k < n implies {
            let jk = spec_find(tables2, #[trigger] comps[k], 0)->Some_0;
            cur.0[jk] == spec_merge(
                tables2[jk].storage.slots@,
                entities,
                entries[k].1.offsets@,
                entries[k].1.values@,
                entries[k].1.offsets@.len() as int,
            )
        } by {
            let jk = spec_find(tables2, comps[k], 0)->Some_0;
            lemma_find_found(tables2, comps[k], 0);
            if k < n - 1 {
                if jk == j2 {
                    assert(tables2[jk].name@ == comps[k]);
                    assert(tables2[j2].name@ == key);
                }
                assert(jk != j2);
            }
        }
    }
}

/// Round trip: deserializing a faithful serialization of a group succeeds,
/// reproduces in the second world, for every component the group owns and
/// every slice position, exactly the first world's value — positions the
/// first world leaves empty keep the second world's value — and leaves every
/// table outside the group's component list untouched.
pub proof fn lemma_round_trip(
    tables1: Seq<Table>,
    tables2: Seq<Table>,
    comps: Seq<Seq<char>>,
    entities: Seq<Entity>,
    entries: Seq<(String, PackedData)>,
)
    requires
        round_trip_pre(tables1, tables2, comps, entities, entries),
    ensures
        spec_apply_all(
            tables2,
            slots_of(tables2),
            comps,
            entities,
            entries,
            entries.len() as int,
        ).1 is None,
        forall|k: int, i: int|
            0 <= k < comps.len() && 0 <= i < entities.len() ==> {
                let j1 = spec_find(tables1, #[trigger] comps[k], 0)->Some_0;
                let j2 = spec_find(tables2, comps[k], 0)->Some_0;
                let merged = spec_apply_all(
                    tables2,
                    slots_of(tables2),
                    comps,
                    entities,
                    entries,
                    entries.len() as int,
                ).0[j2];
                slot_get(merged, (#[trigger] entities[i]).index as int) == (if slot_get(
                    tables1[j1].storage.slots@,
                    entities[i].index as int,
                ) is Some {
                    slot_get(tables1[j1].storage.slots@, entities[i].index as int)
                } else {
                    slot_get(tables2[j2].storage.slots@, entities[i].index as int)
                })
            },
        forall|j: int|
            0 <= j < tables2.len() && (forall|k: int|
                0 <= k < comps.len() ==> spec_find(tables2, #[trigger] comps[k], 0) != Some(j))
                ==> (#[trigger] spec_apply_all(
                tables2,
                slots_of(tables2),
                comps,
                entities,
                entries,
                entries.len() as int,
            ).0[j]) == tables2[j].storage.slots@,
{
    let n = entries.len() as int;
    assert(n == comps.len());
    lemma_round_trip_aux(tables1, tables2, comps, entities, entries, n);
    let result = spec_apply_all(tables2, slots_of(tables2), comps, entities, entries, n);
    assert forall|k: int, i: int|
        0 <= k < comps.len() && 0 <= i < entities.len() implies {
        let j1 = spec_find(tables1, #[trigger] comps[k], 0)->Some_0;
        let j2 = spec_find(tables2, comps[k], 0)->Some_0;
        let merged = result.0[j2];
        slot_get(merged, (#[trigger] entities[i]).index as int) == (if slot_get(
            tables1[j1].storage.slots@,
            entities[i].index as int,
        ) is Some {
            slot_get(tables1[j1].storage.slots@, entities[i].index as int)
        } else {
            slot_get(tables2[j2].storage.slots@, entities[i].index as int)
        })
    } by {
        let j1 = spec_find(tables1, comps[k], 0)->Some_0;
        let j2 = spec_find(tables2, comps[k], 0)->Some_0;
        lemma_find_found(tables1, comps[k], 0);
        lemma_find_found(tables2, comps[k], 0);
        assert(entries[k].1.offsets@ == pack_offsets(
            tables1[j1].storage.slots@,
            entities,
            entities.len() as int,
        ));
        assert(result.0[j2] == spec_merge(
            tables2[j2].storage.slots@,
            entities,
            entries[k].1.offsets@,
            entries[k].1.values@,
            entries[k].1.offsets@.len() as int,
        ));
        lemma_merge_of_pack(tables1[j1].storage.slots@, tables2[j2].storage.slots@, entities);
    }
}

} // verus!
