//! Serialization protocol: streaming a group's components into an ordered
//! map.
//!
//! Serializing a group writes one map entry per component identifier in the
//! group's flattening order: the identifier as key, the component's packed
//! column over the world's entities as value.  Each storage is read under a
//! shared lock held only while that one component is packed — never across
//! two components — so serialization of unrelated components is never
//! queued behind one lock.

use vstd::prelude::*;
use crate::entity::Entity;
use crate::error::EncodeError;
use crate::group::{spec_components, GroupTree};
use crate::packed::{pack_offsets, pack_values, PackedData};
use crate::world::{shared_lockable, spec_find, Table, World};

verus! {

/// An ordered map from component identifier to packed column.
pub struct SerializedMap {
    /// The entries, in the order they were written.
    pub entries: Vec<(String, PackedData)>,
}

/// One lock operation performed by the protocol, named by component.
pub enum LockEvent {
    /// A shared lock on the component's storage was granted.
    Acquire(Seq<char>),
    /// The shared lock on the component's storage was returned.
    Release(Seq<char>),
}

/// The lock operations serialization performs for the first `n` components:
/// for each in order, one shared acquire immediately followed by its
/// release.
pub open spec fn serial_trace(comps: Seq<Seq<char>>, n: int) -> Seq<LockEvent>
    decreases n,
{
    if n <= 0 {
        Seq::empty()
    } else {
        serial_trace(comps, n - 1) + seq![
            LockEvent::Acquire(comps[n - 1]),
            LockEvent::Release(comps[n - 1]),
        ]
    }
}

/// How many locks the first `t` events of `tr` leave held.
pub open spec fn held_count(tr: Seq<LockEvent>, t: int) -> int
    decreases t,
{
    if t <= 0 {
        0
    } else {
        held_count(tr, t - 1) + (match tr[t - 1] {
            LockEvent::Acquire(_) => 1int,
            LockEvent::Release(_) => -1int,
        })
    }
}

/// The serialization trace alternates: acquires at even positions, releases
/// at odd ones.
pub proof fn lemma_serial_trace_shape(comps: Seq<Seq<char>>, n: int)
    requires
        0 <= n,
    ensures
        serial_trace(comps, n).len() == 2 * n,
        forall|t: int|
            0 <= t < 2 * n ==> ((#[trigger] serial_trace(comps, n)[t]) is Acquire <==> t % 2 == 0),
    decreases n,
{
    if n > 0 {
        lemma_serial_trace_shape(comps, n - 1);
    }
}

/// A trace that alternates acquire and release holds `t % 2` locks after
/// its first `t` events.
pub proof fn lemma_held_alternating(tr: Seq<LockEvent>, t: int)
    requires
        0 <= t,
        forall|k: int| 0 <= k < t ==> ((#[trigger] tr[k]) is Acquire <==> k % 2 == 0),
    ensures
        held_count(tr, t) == t % 2,
    decreases t,
{
    if t > 0 {
        lemma_held_alternating(tr, t - 1);
    }
}

/// Lock discipline: at no point of the serialization trace is more than one
/// storage lock held; each component's lock is released before the next
/// component's is acquired.
pub proof fn lemma_lock_discipline(comps: Seq<Seq<char>>, n: int, t: int)
    requires
        0 <= n,
        0 <= t <= 2 * n,
    ensures
        0 <= held_count(serial_trace(comps, n), t) <= 1,
{
    lemma_serial_trace_shape(comps, n);
    lemma_held_alternating(serial_trace(comps, n), t);
}

/// What a successful serialization of the component list `comps` leaves in
/// `entries`: one entry per component, in order, keyed by the identifier and
/// carrying the packed column of that component's storage over `entities`.
pub open spec fn serialized_entries_ok(
    tables: Seq<Table>,
    entities: Seq<Entity>,
    comps: Seq<Seq<char>>,
    entries: Seq<(String, PackedData)>,
) -> bool {
    &&& entries.len() == comps.len()
    &&& forall|k: int| 0 <= k < comps.len() ==> (#[trigger] entries[k]).0@ == comps[k]
    &&& forall|k: int|
        0 <= k < comps.len() ==> match spec_find(tables, comps[k], 0) {
            Some(j) => (#[trigger] entries[k]).1.offsets@ == pack_offsets(
                tables[j].storage.slots@,
                entities,
                entities.len() as int,
            ) && entries[k].1.values@ == pack_values(
                tables[j].storage.slots@,
                entities,
                entities.len() as int,
            ),
            None => false,
        }
}

/// Every component of the list is registered in the tables.
pub open spec fn all_registered(tables: Seq<Table>, comps: Seq<Seq<char>>) -> bool {
    forall|k: int| 0 <= k < comps.len() ==> spec_find(tables, #[trigger] comps[k], 0) is Some
}

/// Every component's storage admits one more shared access.
pub open spec fn all_shared_lockable(tables: Seq<Table>, comps: Seq<Seq<char>>) -> bool {
    forall|k: int|
        0 <= k < comps.len() ==> shared_lockable(
            tables[spec_find(tables, #[trigger] comps[k], 0)->Some_0].lock,
        )
}

/// A shared count of zero never arises: a granted shared access always
/// raises the count to at least one, and releases stop at `Free`.
pub open spec fn lock_wf(l: crate::world::Lock) -> bool {
    !(l matches crate::world::Lock::Shared(n) && n == 0)
}

/// Every table's lock is in a state the lock operations can produce.
pub open spec fn locks_wf(tables: Seq<Table>) -> bool {
    forall|j: int| 0 <= j < tables.len() ==> lock_wf((#[trigger] tables[j]).lock)
}

/// Serializes the subtree of node `i` by appending its entries to `map`, in
/// the subtree's flattening order.  Each component's storage is read under a
/// shared lock released before the next component is touched; the returned
/// trace records those operations.
pub fn serialize_subgroup(tree: &GroupTree, i: usize, world: &mut World, map: &mut SerializedMap)
    -> (r: (Result<(), EncodeError>, Ghost<Seq<LockEvent>>))
    requires
        tree.wf(),
        i < tree.nodes@.len(),
        old(world).entities@.len() <= u32::MAX,
        all_registered(old(world).tables@, spec_components(tree.nodes@, i as int)),
        locks_wf(old(world).tables@),
    ensures
        final(world).entities@ == old(world).entities@,
        final(world).tables@ == old(world).tables@,
        match r.0 {
            Ok(_) => {
                &&& all_shared_lockable(
                    old(world).tables@,
                    spec_components(tree.nodes@, i as int),
                )
                &&& serialized_entries_ok(
                    old(world).tables@,
                    old(world).entities@,
                    spec_components(tree.nodes@, i as int),
                    final(map).entries@.skip(old(map).entries@.len() as int),
                )
                &&& final(map).entries@.take(old(map).entries@.len() as int) == old(
                    map,
                ).entries@
                &&& r.1@ == serial_trace(
                    spec_components(tree.nodes@, i as int),
                    spec_components(tree.nodes@, i as int).len() as int,
                )
            },
            Err(e) => e == EncodeError::BorrowConflict && !all_shared_lockable(
                old(world).tables@,
                spec_components(tree.nodes@, i as int),
            ) && final(map).entries@.take(old(map).entries@.len() as int) == old(map).entries@,
        },
{
    let comps = tree.components(i);
    let ghost cdv = comps.deep_view();
    let ghost base = map.entries@.len() as int;
    let ghost mut trace = Seq::<LockEvent>::empty();
    let mut k: usize = 0;
    while k < comps.len()
        invariant
            tree.wf(),
            i < tree.nodes@.len(),
            cdv == comps.deep_view(),
            cdv == spec_components(tree.nodes@, i as int),
            base == old(map).entries@.len() as int,
            world.entities@ == old(world).entities@,
            world.tables@ == old(world).tables@,
            world.entities@.len() <= u32::MAX,
            all_registered(world.tables@, cdv),
            locks_wf(world.tables@),
            k <= comps@.len(),
            map.entries@.len() == base + k,
            map.entries@.take(base) == old(map).entries@,
            serialized_entries_ok(
                world.tables@,
                world.entities@,
                cdv.take(k as int),
                map.entries@.skip(base),
            ),
            forall|q: int|
                0 <= q < k ==> shared_lockable(
                    world.tables@[spec_find(world.tables@, #[trigger] cdv[q], 0)->Some_0].lock,
                ),
            trace == serial_trace(cdv, k as int),
        decreases comps@.len() - k,
    {
        let name = &comps[k];
        proof {
            assert(name@ == cdv[k as int]);
        }
        let j: usize;
        match world.lookup(name) {
            Some(found) => {
                j = found;
            },
            None => {
                // unreachable: every component of the subtree is registered
                proof {
                    assert(spec_find(world.tables@, cdv[k as int], 0) is Some);
                    assert(false);
                }
                return (Err(EncodeError::BorrowConflict), Ghost(trace));
            },
        }
        let ghost before = world.tables@;
        if !world.acquire_shared(j) {
            proof {
                assert(!shared_lockable(
                    world.tables@[spec_find(world.tables@, cdv[k as int], 0)->Some_0].lock,
                ));
            }
            return (Err(EncodeError::BorrowConflict), Ghost(trace));
        }
        let packed = PackedData::pack(&world.tables[j].storage, &world.entities);
        world.release_shared(j);
        proof {
            assert(world.tables@ =~= before);
            trace = trace + seq![
                LockEvent::Acquire(cdv[k as int]),
                LockEvent::Release(cdv[k as int]),
            ];
        }
        let ghost prev = map.entries@.skip(base);
        let pushed_name = name.clone();
        let ghost pushed = (pushed_name, packed);
        entries_push(map, pushed_name, packed);
        proof {
            assert(map.entries@.take(base) =~= old(map).entries@);
            let snew = map.entries@.skip(base);
            assert(snew =~= prev.push(pushed));
            assert(pushed.0@ == cdv[k as int]);
            assert forall|q: int| 0 <= q < k + 1 implies (#[trigger] snew[q]).0@ == cdv.take(
                k + 1,
            )[q] by {
                if q < k {
                    assert(snew[q] == prev[q]);
                    assert(prev[q].0@ == cdv.take(k as int)[q]);
                }
            }
            assert(serialized_entries_ok(
                world.tables@,
                world.entities@,
                cdv.take(k + 1),
                snew,
            ));
        }
        k = k + 1;
    }
    proof {
        assert(cdv.take(k as int) =~= cdv);
    }
    (Ok(()), Ghost(trace))
}

/// Appends one entry to the map.
fn entries_push(map: &mut SerializedMap, name: String, packed: PackedData)
    ensures
        final(map).entries@ == old(map).entries@.push((name, packed)),
{
    map.entries.push((name, packed));
}

/// Serializes the group rooted at node `root`: a fresh ordered map whose
/// keys are exactly the group's component list, in flattening order, each
/// valued by that component's packed column over the world's entities.
/// Fails with a borrow conflict, changing nothing, when any component's
/// storage is under an exclusive lock.
pub fn serialize_group(tree: &GroupTree, root: usize, world: &mut World) -> (r: Result<
    SerializedMap,
    EncodeError,
>)
    requires
        tree.wf(),
        root < tree.nodes@.len(),
        old(world).entities@.len() <= u32::MAX,
        all_registered(old(world).tables@, spec_components(tree.nodes@, root as int)),
        locks_wf(old(world).tables@),
    ensures
        final(world).entities@ == old(world).entities@,
        final(world).tables@ == old(world).tables@,
        match r {
            Ok(m) => all_shared_lockable(
                old(world).tables@,
                spec_components(tree.nodes@, root as int),
            ) && serialized_entries_ok(
                old(world).tables@,
                old(world).entities@,
                spec_components(tree.nodes@, root as int),
                m.entries@,
            ),
            Err(e) => e == EncodeError::BorrowConflict && !all_shared_lockable(
                old(world).tables@,
                spec_components(tree.nodes@, root as int),
            ),
        },
{
    let mut map = SerializedMap { entries: Vec::new() };
    let (res, _trace) = serialize_subgroup(tree, root, world, &mut map);
    match res {
        Ok(_) => {
            proof {
                assert(map.entries@.skip(0) =~= map.entries@);
            }
            Ok(map)
        },
        Err(e) => Err(e),
    }
}

} // verus!
