//! The world facade: entities plus one lockable storage per component kind.
//!
//! The world owns every component storage and the entity list.  Each storage
//! carries its own shared/exclusive lock, the explicit form of the store's
//! runtime borrow checking: many readers of one kind may coexist, a writer
//! excludes everything else, and a denied request is a fatal borrow conflict
//! for the call that made it, never a wait.

use vstd::prelude::*;
use crate::entity::Entity;
use crate::storage::Storage;
use crate::value::{Kind, Value};

verus! {

/// The lock state of one component storage.
#[derive(Clone, Copy, PartialEq, Eq, Structural, Debug)]
pub enum Lock {
    /// No outstanding access.
    Free,
    /// This many outstanding shared (read) accesses.
    Shared(u32),
    /// One outstanding exclusive (write) access.
    Exclusive,
}

/// Whether one more shared access can be granted.
pub open spec fn shared_lockable(l: Lock) -> bool {
    match l {
        Lock::Free => true,
        Lock::Shared(n) => n < u32::MAX,
        Lock::Exclusive => false,
    }
}

/// The lock state after granting one more shared access.
pub open spec fn shared_locked(l: Lock) -> Lock {
    match l {
        Lock::Free => Lock::Shared(1),
        Lock::Shared(n) => Lock::Shared((n + 1) as u32),
        Lock::Exclusive => Lock::Exclusive,
    }
}

/// The lock state after returning one shared access.
pub open spec fn shared_released(l: Lock) -> Lock {
    match l {
        Lock::Shared(n) => if n <= 1 {
            Lock::Free
        } else {
            Lock::Shared((n - 1) as u32)
        },
        _ => l,
    }
}

/// One registered component kind: its identifier, the shape of its values,
/// its lock, and its storage.
pub struct Table {
    /// The component identifier this table stores.
    pub name: String,
    /// The shape every stored value must have.
    pub kind: Kind,
    /// The current lock state of the storage.
    pub lock: Lock,
    /// The per-entity values.
    pub storage: Storage,
}

/// The first table whose name reads `name`, searching from position `j`.
pub open spec fn spec_find(tables: Seq<Table>, name: Seq<char>, j: int) -> Option<int>
    decreases tables.len() - j,
{
    if j < 0 || j >= tables.len() {
        None
    } else if tables[j].name@ == name {
        Some(j)
    } else {
        spec_find(tables, name, j + 1)
    }
}

/// The table `t` with its lock replaced by `l`.
pub open spec fn with_lock(t: Table, l: Lock) -> Table {
    Table { name: t.name, kind: t.kind, lock: l, storage: t.storage }
}

/// Whether `t_new` is `t_old` with its storage slots replaced by `slots`.
pub open spec fn is_with_slots(t_old: Table, t_new: Table, slots: Seq<Option<Value>>) -> bool {
    &&& t_new.name == t_old.name
    &&& t_new.kind == t_old.kind
    &&& t_new.lock == t_old.lock
    &&& t_new.storage.slots@ == slots
}

/// The entity-component store: the entity list and one table per registered
/// component kind.
pub struct World {
    /// Every entity issued so far, in creation order.
    pub entities: Vec<Entity>,
    /// One table per registered component kind, in registration order.
    pub tables: Vec<Table>,
}

/// A found name names a table so named, and none before it.
pub proof fn lemma_find_found(tables: Seq<Table>, name: Seq<char>, j: int)
    requires
        0 <= j <= tables.len(),
    ensures
        match spec_find(tables, name, j) {
            Some(f) => j <= f < tables.len() && tables[f].name@ == name,
            None => forall|k: int| j <= k < tables.len() ==> (#[trigger] tables[k].name@) != name,
        },
    decreases tables.len() - j,
{
    if j < tables.len() && tables[j].name@ != name {
        lemma_find_found(tables, name, j + 1);
    }
}

/// Lookup depends only on table names: two table sequences named alike are
/// searched alike.
pub proof fn lemma_find_same_names(a: Seq<Table>, b: Seq<Table>, name: Seq<char>, j: int)
    requires
        a.len() == b.len(),
        forall|k: int| 0 <= k < a.len() ==> (#[trigger] a[k].name@) == b[k].name@,
        0 <= j,
    ensures
        spec_find(a, name, j) == spec_find(b, name, j),
    decreases a.len() - j,
{
    if j < a.len() {
        lemma_find_same_names(a, b, name, j + 1);
    }
}

impl World {
    /// The first table storing component `name`.
    pub open spec fn spec_lookup(self, name: Seq<char>) -> Option<int> {
        spec_find(self.tables@, name, 0)
    }

    /// An empty world: no entities, nothing registered.
    pub fn new() -> (w: World)
        ensures
            w.entities@.len() == 0,
            w.tables@.len() == 0,
    {
        World { entities: Vec::new(), tables: Vec::new() }
    }

    /// Issues a fresh entity occupying the next free slot.
    pub fn create_entity(&mut self) -> (e: Entity)
        requires
            old(self).entities@.len() < u32::MAX,
        ensures
            e == (Entity { index: old(self).entities@.len() as u32, gen: 0u32 }),
            final(self).entities@ == old(self).entities@.push(e),
            final(self).tables@ == old(self).tables@,
    {
        let e = Entity { index: self.entities.len() as u32, gen: 0 };
        self.entities.push(e);
        e
    }

    /// Finds the table storing component `name`.
    pub fn lookup(&self, name: &String) -> (r: Option<usize>)
        ensures
            match r {
                Some(j) => self.spec_lookup(name@) == Some(j as int) && j < self.tables@.len()
                    && self.tables@[j as int].name@ == name@,
                None => self.spec_lookup(name@) is None,
            },
    {
        let mut j: usize = 0;
        while j < self.tables.len()
            invariant
                j <= self.tables@.len(),
                spec_find(self.tables@, name@, 0) == spec_find(self.tables@, name@, j as int),
            decreases self.tables@.len() - j,
        {
            if self.tables[j].name == *name {
                return Some(j);
            }
            j = j + 1;
        }
        None
    }

    /// Registers component `name` with value shape `kind`; registering a
    /// name twice leaves the world unchanged.
    pub fn register(&mut self, name: String, kind: Kind)
        ensures
            old(self).spec_lookup(name@) is Some ==> *final(self) == *old(self),
            old(self).spec_lookup(name@) is None ==> {
                &&& final(self).entities@ == old(self).entities@
                &&& final(self).tables@.len() == old(self).tables@.len() + 1
                &&& (forall|k: int|
                    0 <= k < old(self).tables@.len() ==> final(self).tables@[k] == old(
                        self,
                    ).tables@[k])
                &&& final(self).tables@.last().name == name
                &&& final(self).tables@.last().kind == kind
                &&& final(self).tables@.last().lock is Free
                &&& final(self).tables@.last().storage.slots@.len() == 0
            },
    {
        match self.lookup(&name) {
            Some(_) => {},
            None => {
                self.tables.push(
                    Table { name, kind, lock: Lock::Free, storage: Storage { slots: Vec::new() } },
                );
            },
        }
    }

    /// Requests one more shared (read) access on table `j`; refuses when an
    /// exclusive access is outstanding.
    pub fn acquire_shared(&mut self, j: usize) -> (ok: bool)
        requires
            j < old(self).tables@.len(),
        ensures
            final(self).entities@ == old(self).entities@,
            ok == shared_lockable(old(self).tables@[j as int].lock),
            ok ==> final(self).tables@ == old(self).tables@.update(
                j as int,
                with_lock(
                    old(self).tables@[j as int],
                    shared_locked(old(self).tables@[j as int].lock),
                ),
            ),
            !ok ==> *final(self) == *old(self),
    {
        let granted: Option<Lock> = match self.tables[j].lock {
            Lock::Free => Some(Lock::Shared(1)),
            Lock::Shared(n) => if n < u32::MAX {
                Some(Lock::Shared(n + 1))
            } else {
                None
            },
            Lock::Exclusive => None,
        };
        match granted {
            Some(l) => {
                let t = self.tables.remove(j);
                self.tables.insert(
                    j,
                    Table { name: t.name, kind: t.kind, lock: l, storage: t.storage },
                );
                proof {
                    assert(self.tables@ =~= old(self).tables@.update(
                        j as int,
                        with_lock(
                            old(self).tables@[j as int],
                            shared_locked(old(self).tables@[j as int].lock),
                        ),
                    ));
                }
                true
            },
            None => false,
        }
    }

    /// Returns one shared access on table `j`.
    pub fn release_shared(&mut self, j: usize)
        requires
            j < old(self).tables@.len(),
            old(self).tables@[j as int].lock is Shared,
        ensures
            final(self).entities@ == old(self).entities@,
            final(self).tables@ == old(self).tables@.update(
                j as int,
                with_lock(
                    old(self).tables@[j as int],
                    shared_released(old(self).tables@[j as int].lock),
                ),
            ),
    {
        let l = match self.tables[j].lock {
            Lock::Shared(n) => if n <= 1 {
                Lock::Free
            } else {
                Lock::Shared(n - 1)
            },
            _ => Lock::Free,
        };
        let t = self.tables.remove(j);
        self.tables.insert(j, Table { name: t.name, kind: t.kind, lock: l, storage: t.storage });
        proof {
            assert(self.tables@ =~= old(self).tables@.update(
                j as int,
                with_lock(
                    old(self).tables@[j as int],
                    shared_released(old(self).tables@[j as int].lock),
                ),
            ));
        }
    }

    /// Requests the exclusive (write) access on table `j`; refuses unless the
    /// storage is entirely unlocked.
    pub fn acquire_exclusive(&mut self, j: usize) -> (ok: bool)
        requires
            j < old(self).tables@.len(),
        ensures
            final(self).entities@ == old(self).entities@,
            ok == (old(self).tables@[j as int].lock is Free),
            ok ==> final(self).tables@ == old(self).tables@.update(
                j as int,
                with_lock(old(self).tables@[j as int], Lock::Exclusive),
            ),
            !ok ==> *final(self) == *old(self),
    {
        match self.tables[j].lock {
            Lock::Free => {
                let t = self.tables.remove(j);
                self.tables.insert(
                    j,
                    Table { name: t.name, kind: t.kind, lock: Lock::Exclusive, storage: t.storage },
                );
                proof {
                    assert(self.tables@ =~= old(self).tables@.update(
                        j as int,
                        with_lock(old(self).tables@[j as int], Lock::Exclusive),
                    ));
                }
                true
            },
            _ => false,
        }
    }

    /// Returns the exclusive access on table `j`.
    pub fn release_exclusive(&mut self, j: usize)
        requires
            j < old(self).tables@.len(),
            old(self).tables@[j as int].lock is Exclusive,
        ensures
            final(self).entities@ == old(self).entities@,
            final(self).tables@ == old(self).tables@.update(
                j as int,
                with_lock(old(self).tables@[j as int], Lock::Free),
            ),
    {
        let t = self.tables.remove(j);
        self.tables.insert(
            j,
            Table { name: t.name, kind: t.kind, lock: Lock::Free, storage: t.storage },
        );
        proof {
            assert(self.tables@ =~= old(self).tables@.update(
                j as int,
                with_lock(old(self).tables@[j as int], Lock::Free),
            ));
        }
    }

    /// Stores `v` as entity `e`'s value of component `name`, outside any
    /// serialize or deserialize call.  Refuses an unregistered name and a
    /// value of the wrong shape.
    pub fn insert(&mut self, name: &String, e: Entity, v: Value) -> (ok: bool)
        ensures
            final(self).entities@ == old(self).entities@,
            match old(self).spec_lookup(name@) {
                Some(j) => {
                    if v.spec_kind() == old(self).tables@[j].kind {
                        ok && final(self).tables@.len() == old(self).tables@.len() && (forall|
                            k: int,
                        |
                            0 <= k < old(self).tables@.len() && k != j
                                ==> final(self).tables@[k] == old(self).tables@[k])
                            && is_with_slots(
                            old(self).tables@[j],
                            final(self).tables@[j],
                            crate::storage::spec_set(
                                old(self).tables@[j].storage.slots@,
                                e.index as int,
                                v,
                            ),
                        )
                    } else {
                        !ok && *final(self) == *old(self)
                    }
                },
                None => !ok && *final(self) == *old(self),
            },
    {
        match self.lookup(name) {
            Some(j) => {
                if v.kind() == self.tables[j].kind {
                    let mut t = self.tables.remove(j);
                    t.storage.set(e, v);
                    self.tables.insert(j, t);
                    true
                } else {
                    false
                }
            },
            None => false,
        }
    }
}

} // verus!
