//! Deserialization protocol: consuming an ordered map back into the world.
//!
//! The map is read one entry at a time.  A key owned by the group or any of
//! its subgroups routes to that component's storage: the packed column is
//! validated and merged under an exclusive lock, over the caller's entity
//! slice only.  A key nothing in the subtree owns is consumed and discarded —
//! never an error — so maps written by a wider group tree still load.
//! Validation, lock conflicts and count mismatches are fatal: the call stops
//! at the first failing entry, leaving earlier entries applied.

use vstd::prelude::*;
use crate::entity::Entity;
use crate::error::DecodeError;
use crate::group::{contains_id, lemma_contains_decompose, lemma_contains_subgroups, local_ids,
    spec_components, GroupTree};
use crate::encode::{all_registered, SerializedMap};
use crate::packed::{merge_check, spec_merge, PackedData};
use crate::value::Value;
use crate::world::{is_with_slots, lemma_find_found, lemma_find_same_names, spec_find, Table,
    World};

verus! {

/// Whether `b` keeps `a`'s frame: as many tables, each with the same name,
/// value shape and lock state (storages may differ).
pub open spec fn same_frame(a: Seq<Table>, b: Seq<Table>) -> bool {
    &&& b.len() == a.len()
    &&& forall|j: int|
        0 <= j < a.len() ==> (#[trigger] b[j]).name == a[j].name && b[j].kind == a[j].kind
            && b[j].lock == a[j].lock
}

/// The storage contents of every table.
pub open spec fn slots_of(tables: Seq<Table>) -> Seq<Seq<Option<Value>>> {
    Seq::new(tables.len(), |j: int| tables[j].storage.slots@)
}

/// The error, if any, of merging one recognized entry: a held lock refuses
/// the write, otherwise the column's own validation decides.
pub open spec fn apply_known_err(
    tables: Seq<Table>,
    entities: Seq<Entity>,
    key: Seq<char>,
    offsets: Seq<u32>,
    values: Seq<Value>,
) -> Option<DecodeError> {
    let j = spec_find(tables, key, 0)->Some_0;
    if !(tables[j].lock is Free) {
        Some(DecodeError::BorrowConflict)
    } else {
        merge_check(entities, offsets, values, tables[j].kind)
    }
}

/// One entry applied to the storage contents: an unrecognized key changes
/// nothing; a recognized one either fails, freezing the contents, or merges
/// its column into its component's storage.
pub open spec fn spec_apply(
    tables: Seq<Table>,
    slotss: Seq<Seq<Option<Value>>>,
    comps: Seq<Seq<char>>,
    entities: Seq<Entity>,
    entry: (String, PackedData),
) -> (Seq<Seq<Option<Value>>>, Option<DecodeError>) {
    let key = entry.0@;
    if !contains_id(comps, key) {
        (slotss, None)
    } else {
        let j = spec_find(tables, key, 0)->Some_0;
        match apply_known_err(tables, entities, key, entry.1.offsets@, entry.1.values@) {
            Some(e) => (slotss, Some(e)),
            None => (
                slotss.update(
                    j,
                    spec_merge(
                        slotss[j],
                        entities,
                        entry.1.offsets@,
                        entry.1.values@,
                        entry.1.offsets@.len() as int,
                    ),
                ),
                None,
            ),
        }
    }
}

/// The first `n` entries applied in order, stopping at the first error.
pub open spec fn spec_apply_all(
    tables: Seq<Table>,
    slotss: Seq<Seq<Option<Value>>>,
    comps: Seq<Seq<char>>,
    entities: Seq<Entity>,
    entries: Seq<(String, PackedData)>,
    n: int,
) -> (Seq<Seq<Option<Value>>>, Option<DecodeError>)
    decreases n,
{
    if n <= 0 {
        (slotss, None)
    } else {
        let prev = spec_apply_all(tables, slotss, comps, entities, entries, n - 1);
        if prev.1 is Some {
            prev
        } else {
            spec_apply(tables, prev.0, comps, entities, entries[n - 1])
        }
    }
}

/// After the first error, later entries change nothing.
pub proof fn lemma_apply_frozen(
    tables: Seq<Table>,
    slotss: Seq<Seq<Option<Value>>>,
    comps: Seq<Seq<char>>,
    entities: Seq<Entity>,
    entries: Seq<(String, PackedData)>,
    n: int,
    m: int,
)
    requires
        0 <= n <= m,
        spec_apply_all(tables, slotss, comps, entities, entries, n).1 is Some,
    ensures
        spec_apply_all(tables, slotss, comps, entities, entries, m) == spec_apply_all(
            tables,
            slotss,
            comps,
            entities,
            entries,
            n,
        ),
    decreases m - n,
{
    if n < m {
        lemma_apply_frozen(tables, slotss, comps, entities, entries, n, m - 1);
    }
}

/// Applying entries reads only the first `n` of them.
pub proof fn lemma_apply_prefix(
    tables: Seq<Table>,
    slotss: Seq<Seq<Option<Value>>>,
    comps: Seq<Seq<char>>,
    entities: Seq<Entity>,
    e1: Seq<(String, PackedData)>,
    e2: Seq<(String, PackedData)>,
    n: int,
)
    requires
        0 <= n <= e1.len(),
        n <= e2.len(),
        forall|k: int| 0 <= k < n ==> e1[k] == e2[k],
    ensures
        spec_apply_all(tables, slotss, comps, entities, e1, n) == spec_apply_all(
            tables,
            slotss,
            comps,
            entities,
            e2,
            n,
        ),
    decreases n,
{
    if n > 0 {
        lemma_apply_prefix(tables, slotss, comps, entities, e1, e2, n - 1);
    }
}

/// Unknown-key tolerance: an entry whose key no component of the group list
/// carries changes nothing and does not disturb the entries around it — the
/// map deserializes exactly as if the entry were absent.
pub proof fn lemma_unknown_key_tolerance(
    tables: Seq<Table>,
    slotss: Seq<Seq<Option<Value>>>,
    comps: Seq<Seq<char>>,
    entities: Seq<Entity>,
    e1: Seq<(String, PackedData)>,
    x: (String, PackedData),
    e2: Seq<(String, PackedData)>,
)
    requires
        !contains_id(comps, x.0@),
    ensures
        spec_apply_all(
            tables,
            slotss,
            comps,
            entities,
            e1 + seq![x] + e2,
            e1.len() + 1 + e2.len() as int,
        ) == spec_apply_all(
            tables,
            slotss,
            comps,
            entities,
            e1 + e2,
            e1.len() + e2.len() as int,
        ),
    decreases e2.len(),
{
    if e2.len() == 0 {
        assert(e1 + seq![x] + e2 =~= e1 + seq![x]);
        assert(e1 + e2 =~= e1);
        lemma_apply_prefix(
            tables,
            slotss,
            comps,
            entities,
            e1 + seq![x],
            e1,
            e1.len() as int,
        );
        assert((e1 + seq![x])[e1.len() as int] == x);
    } else {
        let y = e2.last();
        let e2p = e2.drop_last();
        lemma_unknown_key_tolerance(tables, slotss, comps, entities, e1, x, e2p);
        let left = e1 + seq![x] + e2;
        let leftp = e1 + seq![x] + e2p;
        let right = e1 + e2;
        let rightp = e1 + e2p;
        assert(left =~= leftp.push(y));
        assert(right =~= rightp.push(y));
        lemma_apply_prefix(
            tables,
            slotss,
            comps,
            entities,
            left,
            leftp,
            leftp.len() as int,
        );
        lemma_apply_prefix(
            tables,
            slotss,
            comps,
            entities,
            right,
            rightp,
            rightp.len() as int,
        );
        assert(left[left.len() - 1] == y);
        assert(right[right.len() - 1] == y);
    }
}

/// Routes one key through the subtree of node `i`: the key is matched
/// against the node's own identifiers first,
/// then offered to each subgroup in declared order; the first owner merges
/// the column under an exclusive lock and reports the key handled.  A key
/// nothing in the subtree owns is reported unhandled, with nothing changed.
pub fn deserialize_subgroup(
    tree: &GroupTree,
    i: usize,
    world: &mut World,
    entities: &Vec<Entity>,
    key: &String,
    packed: &PackedData,
) -> (r: Result<Option<()>, DecodeError>)
    requires
        tree.wf(),
        i < tree.nodes@.len(),
        all_registered(old(world).tables@, spec_components(tree.nodes@, i as int)),
    ensures
        final(world).entities@ == old(world).entities@,
        same_frame(old(world).tables@, final(world).tables@),
        match r {
            Ok(h) => {
                if h is Some {
                    let j = spec_find(old(world).tables@, key@, 0)->Some_0;
                    &&& contains_id(spec_components(tree.nodes@, i as int), key@)
                    &&& apply_known_err(
                        old(world).tables@,
                        entities@,
                        key@,
                        packed.offsets@,
                        packed.values@,
                    ) is None
                    &&& final(world).tables@.len() == old(world).tables@.len()
                    &&& (forall|k: int|
                        0 <= k < old(world).tables@.len() && k != j
                            ==> final(world).tables@[k] == old(world).tables@[k])
                    &&& is_with_slots(
                        old(world).tables@[j],
                        final(world).tables@[j],
                        spec_merge(
                            old(world).tables@[j].storage.slots@,
                            entities@,
                            packed.offsets@,
                            packed.values@,
                            packed.offsets@.len() as int,
                        ),
                    )
                } else {
                    &&& !contains_id(spec_components(tree.nodes@, i as int), key@)
                    &&& final(world).tables@ == old(world).tables@
                }
            },
            Err(e) => {
                &&& contains_id(spec_components(tree.nodes@, i as int), key@)
                &&& apply_known_err(
                    old(world).tables@,
                    entities@,
                    key@,
                    packed.offsets@,
                    packed.values@,
                ) == Some(e)
                &&& final(world).tables@ == old(world).tables@
            },
        },
    decreases tree.nodes@.len() - i,
{
    let node = &tree.nodes[i];
    let ghost nodes = tree.nodes@;
    let mut k: usize = 0;
    while k < node.local.len()
        invariant
            tree.wf(),
            nodes == tree.nodes@,
            node == &nodes[i as int],
            i < nodes.len(),
            k <= node.local@.len(),
            world.entities@ == old(world).entities@,
            world.tables@ == old(world).tables@,
            *world == *old(world),
            all_registered(old(world).tables@, spec_components(nodes, i as int)),
            forall|q: int| 0 <= q < k ==> (#[trigger] node.local@[q])@ != key@,
        decreases node.local@.len() - k,
    {
        if node.local[k] == *key {
            proof {
                assert(local_ids(nodes[i as int])[k as int] == key@);
                assert(contains_id(local_ids(nodes[i as int]), key@));
                lemma_contains_decompose(nodes, i as int, key@);
                let w = choose|w: int|
                    0 <= w < spec_components(nodes, i as int).len() && spec_components(
                        nodes,
                        i as int,
                    )[w] == key@;
                assert(spec_find(
                    old(world).tables@,
                    spec_components(nodes, i as int)[w],
                    0,
                ) is Some);
            }
            return merge_entry(world, entities, key, packed);
        }
        k = k + 1;
    }
    proof {
        assert forall|q: int| 0 <= q < local_ids(nodes[i as int]).len() implies (
        #[trigger] local_ids(nodes[i as int])[q]) != key@ by {
            assert(node.local@[q]@ != key@);
        }
        assert(!contains_id(local_ids(nodes[i as int]), key@));
    }
    let mut s: usize = 0;
    while s < node.subgroups.len()
        invariant
            tree.wf(),
            node == &nodes[i as int],
            nodes == tree.nodes@,
            i < nodes.len(),
            s <= node.subgroups@.len(),
            world.entities@ == old(world).entities@,
            world.tables@ == old(world).tables@,
            all_registered(old(world).tables@, spec_components(nodes, i as int)),
            forall|q: int|
                0 <= q < s ==> !contains_id(
                    spec_components(nodes, (#[trigger] node.subgroups@[q]) as int),
                    key@,
                ),
        decreases node.subgroups@.len() - s,
    {
        let sub = node.subgroups[s];
        proof {
            lemma_contains_subgroups(nodes, i as int, nodes[i as int].subgroups@, 0, key@);
            lemma_contains_decompose(nodes, i as int, key@);
            assert forall|q: int|
                0 <= q < spec_components(nodes, sub as int).len() implies spec_find(
                old(world).tables@,
                #[trigger] spec_components(nodes, sub as int)[q],
                0,
            ) is Some by {
                let id = spec_components(nodes, sub as int)[q];
                assert(contains_id(spec_components(nodes, sub as int), id));
                lemma_contains_subgroups(nodes, i as int, nodes[i as int].subgroups@, 0, id);
                lemma_contains_decompose(nodes, i as int, id);
                assert(contains_id(spec_components(nodes, i as int), id));
                let w = choose|w: int|
                    0 <= w < spec_components(nodes, i as int).len() && spec_components(
                        nodes,
                        i as int,
                    )[w] == id;
                assert(spec_find(
                    old(world).tables@,
                    spec_components(nodes, i as int)[w],
                    0,
                ) is Some);
            }
        }
        match deserialize_subgroup(tree, sub, world, entities, key, packed) {
            Ok(Some(_)) => {
                proof {
                    lemma_contains_subgroups(nodes, i as int, nodes[i as int].subgroups@, 0, key@);
                    lemma_contains_decompose(nodes, i as int, key@);
                }
                return Ok(Some(()));
            },
            Ok(None) => {},
            Err(e) => {
                proof {
                    lemma_contains_subgroups(nodes, i as int, nodes[i as int].subgroups@, 0, key@);
                    lemma_contains_decompose(nodes, i as int, key@);
                }
                return Err(e);
            },
        }
        s = s + 1;
    }
    proof {
        lemma_contains_subgroups(nodes, i as int, nodes[i as int].subgroups@, 0, key@);
        lemma_contains_decompose(nodes, i as int, key@);
        assert(!contains_id(spec_components(nodes, i as int), key@));
    }
    Ok(None)
}

/// Deserializes an ordered map into the group rooted at node `root`: each
/// entry in turn is routed through the subtree and merged over `entities`;
/// entries whose key nothing in the subtree owns are discarded silently.
/// The first fatal entry stops the call with its error, leaving earlier
/// entries applied; lock states are always restored.
pub fn deserialize_group(
    tree: &GroupTree,
    root: usize,
    world: &mut World,
    entities: &Vec<Entity>,
    map: &SerializedMap,
) -> (r: Result<(), DecodeError>)
    requires
        tree.wf(),
        root < tree.nodes@.len(),
        all_registered(old(world).tables@, spec_components(tree.nodes@, root as int)),
    ensures
        final(world).entities@ == old(world).entities@,
        same_frame(old(world).tables@, final(world).tables@),
        slots_of(final(world).tables@) == spec_apply_all(
            old(world).tables@,
            slots_of(old(world).tables@),
            spec_components(tree.nodes@, root as int),
            entities@,
            map.entries@,
            map.entries@.len() as int,
        ).0,
        match r {
            Ok(_) => spec_apply_all(
                old(world).tables@,
                slots_of(old(world).tables@),
                spec_components(tree.nodes@, root as int),
                entities@,
                map.entries@,
                map.entries@.len() as int,
            ).1 is None,
            Err(e) => spec_apply_all(
                old(world).tables@,
                slots_of(old(world).tables@),
                spec_components(tree.nodes@, root as int),
                entities@,
                map.entries@,
                map.entries@.len() as int,
            ).1 == Some(e),
        },
{
    let ghost comps = spec_components(tree.nodes@, root as int);
    let ghost tables0 = old(world).tables@;
    let mut n: usize = 0;
    while n < map.entries.len()
        invariant
            tree.wf(),
            root < tree.nodes@.len(),
            comps == spec_components(tree.nodes@, root as int),
            tables0 == old(world).tables@,
            n <= map.entries@.len(),
            world.entities@ == old(world).entities@,
            same_frame(tables0, world.tables@),
            all_registered(tables0, comps),
            spec_apply_all(tables0, slots_of(tables0), comps, entities@, map.entries@, n as int).1
                is None,
            slots_of(world.tables@) == spec_apply_all(
                tables0,
                slots_of(tables0),
                comps,
                entities@,
                map.entries@,
                n as int,
            ).0,
        decreases map.entries@.len() - n,
    {
        let entry = &map.entries[n];
        proof {
            assert forall|q: int| 0 <= q < comps.len() implies spec_find(
                world.tables@,
                #[trigger] comps[q],
                0,
            ) is Some by {
                lemma_find_same_names(tables0, world.tables@, comps[q], 0);
            }
        }
        let ghost before = world.tables@;
        let ghost prev = spec_apply_all(
            tables0,
            slots_of(tables0),
            comps,
            entities@,
            map.entries@,
            n as int,
        );
        match deserialize_subgroup(tree, root, world, entities, &entry.0, &entry.1) {
            Ok(h) => {
                proof {
                    lemma_find_same_names(tables0, before, entry.0@, 0);
                    if h is Some {
                        let j = spec_find(tables0, entry.0@, 0)->Some_0;
                        lemma_find_found(tables0, entry.0@, 0);
                        assert(slots_of(before)[j] == before[j].storage.slots@);
                        assert(slots_of(world.tables@) =~= prev.0.update(
                            j,
                            spec_merge(
                                prev.0[j],
                                entities@,
                                entry.1.offsets@,
                                entry.1.values@,
                                entry.1.offsets@.len() as int,
                            ),
                        ));
                    } else {
                        assert(slots_of(world.tables@) =~= prev.0);
                    }
                    assert(same_frame(tables0, world.tables@));
                }
            },
            Err(e) => {
                proof {
                    lemma_find_same_names(tables0, before, entry.0@, 0);
                    lemma_find_found(tables0, entry.0@, 0);
                    assert(spec_apply_all(
                        tables0,
                        slots_of(tables0),
                        comps,
                        entities@,
                        map.entries@,
                        n + 1,
                    ).1 == Some(e));
                    lemma_apply_frozen(
                        tables0,
                        slots_of(tables0),
                        comps,
                        entities@,
                        map.entries@,
                        n + 1,
                        map.entries@.len() as int,
                    );
                    assert(slots_of(world.tables@) =~= prev.0);
                }
                return Err(e);
            },
        }
        n = n + 1;
    }
    Ok(())
}

/// Merges one recognized entry: looks its table up, takes the exclusive
/// lock, merges the column, and returns the lock before reporting.
fn merge_entry(world: &mut World, entities: &Vec<Entity>, key: &String, packed: &PackedData) -> (r:
    Result<Option<()>, DecodeError>)
    requires
        spec_find(old(world).tables@, key@, 0) is Some,
    ensures
        final(world).entities@ == old(world).entities@,
        same_frame(old(world).tables@, final(world).tables@),
        r != Ok::<Option<()>, DecodeError>(None),
        match r {
            Ok(_) => {
                let j = spec_find(old(world).tables@, key@, 0)->Some_0;
                &&& apply_known_err(
                    old(world).tables@,
                    entities@,
                    key@,
                    packed.offsets@,
                    packed.values@,
                ) is None
                &&& final(world).tables@.len() == old(world).tables@.len()
                &&& (forall|k: int|
                    0 <= k < old(world).tables@.len() && k != j ==> final(world).tables@[k] == old(
                        world,
                    ).tables@[k])
                &&& is_with_slots(
                    old(world).tables@[j],
                    final(world).tables@[j],
                    spec_merge(
                        old(world).tables@[j].storage.slots@,
                        entities@,
                        packed.offsets@,
                        packed.values@,
                        packed.offsets@.len() as int,
                    ),
                )
            },
            Err(e) => apply_known_err(
                old(world).tables@,
                entities@,
                key@,
                packed.offsets@,
                packed.values@,
            ) == Some(e) && final(world).tables@ == old(world).tables@,
        },
{
    let j: usize;
    match world.lookup(key) {
        Some(found) => {
            j = found;
        },
        None => {
            // unreachable: the caller established that the key is registered
            proof {
                assert(false);
            }
            return Err(DecodeError::BorrowConflict);
        },
    }
    if !world.acquire_exclusive(j) {
        return Err(DecodeError::BorrowConflict);
    }
    let ghost acquired = world.tables@;
    let mut t = world.tables.remove(j);
    let res = t.storage.merge(entities, packed, t.kind);
    world.tables.insert(j, t);
    proof {
        assert(world.tables@.len() == acquired.len());
    }
    world.release_exclusive(j);
    match res {
        Ok(_) => {
            proof {
                assert(same_frame(old(world).tables@, world.tables@));
            }
            Ok(Some(()))
        },
        Err(e) => {
            proof {
                assert(world.tables@ =~= old(world).tables@);
            }
            Err(e)
        },
    }
}

} // verus!
