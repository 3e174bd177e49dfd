use vstd::prelude::*;
use crate::entity::EntityId;
use crate::error::EcsResult;
use crate::sparse::SparseSet;
use crate::util::{acquired, lock_error, lock_step, released, unlock_step, PersistentLock};

verus! {

/// Marks a user type as a component.
pub trait Component: Send + Sync + 'static {

}

/// Stands for the identity of a component, resource or event type.
#[derive(Debug, Copy, Clone, PartialEq, Eq, Hash, Structural)]
pub struct TypeKey(pub usize);

/// What a column offers without naming the type of its values.
pub trait TypelessStorage {
    /// The column's internal invariant.
    spec fn valid(&self) -> bool;

    /// The entities that own a value in this column.
    spec fn entities(&self) -> Set<usize>;

    /// The word of the column's lock.
    spec fn lock_word(&self) -> usize;

    /// Whether the lock lets the column carry out a removal of `entity`:
    /// taking a value out needs the lock to be free, finding nothing to take
    /// out needs it not to be held exclusively.
    open spec fn removal_allowed(&self, entity: EntityId) -> bool {
        if self.entities().contains(entity.0) {
            PersistentLock::after_write(self.lock_word()) is Some
        } else {
            PersistentLock::after_read(self.lock_word()) is Some
        }
    }

    /// Removes the entity from the column. Returns `true` if the column is
    /// now empty.
    fn remove(&mut self, entity: EntityId) -> (res: EcsResult<bool>)
        requires
            old(self).valid(),
        ensures
            final(self).valid(),
            final(self).lock_word() == old(self).lock_word(),
            res is Ok <==> old(self).removal_allowed(entity),
            res is Ok ==> final(self).entities() == old(self).entities().remove(entity.0),
            res is Err ==> final(self).entities() == old(self).entities(),
            res matches Ok(empty) ==> empty == (final(self).entities() == Set::<usize>::empty()),
            res matches Err(e) ==> e == lock_error(
                old(self).lock_word(),
                old(self).entities().contains(entity.0),
            ),
    ;

    /// Whether the column holds a value for the entity.
    fn has_entity(&self, entity: EntityId) -> (present: bool)
        requires
            self.valid(),
        ensures
            present == self.entities().contains(entity.0),
    ;
}

/// The column of one component type: the values of all entities that own
/// one, densely packed, behind one read/write lock.
pub struct TypedStorage<T> {
    cells: SparseSet<T>,
    lock: PersistentLock,
}

impl<T> TypedStorage<T> {
    /// The column's cells: index, reverse index and values.
    pub closed spec fn cells(&self) -> SparseSet<T> {
        self.cells
    }

    /// The column's lock.
    pub closed spec fn lock(&self) -> PersistentLock {
        self.lock
    }

    pub open spec fn wf(&self) -> bool {
        self.cells().wf()
    }

    /// The value of each entity that owns one.
    pub open spec fn view(&self) -> Map<usize, T> {
        self.cells()@
    }

    /// Creates a new column that holds `component` for `entity`.
    pub fn with(entity: EntityId, component: T) -> (column: Self)
        ensures
            column.wf(),
            column@ == Map::<usize, T>::empty().insert(entity.0, component),
            column.cells().ids() == seq![entity.0],
            column.lock().is_free(),
    {
        let mut cells = SparseSet::new();
        cells.insert(entity.0, component);
        TypedStorage { cells, lock: PersistentLock::new() }
    }

    /// Creates an empty column.
    pub fn new() -> (column: Self)
        ensures
            column.wf(),
            column@ == Map::<usize, T>::empty(),
            column.cells().ids().len() == 0,
            column.lock().is_free(),
    {
        TypedStorage { cells: SparseSet::new(), lock: PersistentLock::new() }
    }

    /// Inserts a component for the given entity, returning the old component
    /// if it had one. This fails, and changes nothing, exactly when the
    /// column's lock is held.
    pub fn insert(&mut self, entity: EntityId, component: T) -> (res: EcsResult<Option<T>>)
        requires
            old(self).wf(),
        ensures
            final(self).wf(),
            final(self).lock().counter() == old(self).lock().counter(),
            res is Ok <==> old(self).lock().is_free(),
            res is Ok ==> final(self)@ == old(self)@.insert(entity.0, component),
            res matches Ok(previous) ==> previous == (if old(self)@.contains_key(entity.0) {
                Some(old(self)@[entity.0])
            } else {
                None
            }),
            res is Ok ==> final(self).cells().ids() == (if old(self)@.contains_key(entity.0) {
                old(self).cells().ids()
            } else {
                old(self).cells().ids().push(entity.0)
            }),
            res is Err ==> final(self).cells() == old(self).cells(),
            res matches Err(e) ==> e == lock_error(old(self).lock().counter(), true),
    {
        match self.lock.write() {
            Err(e) => Err(e),
            Ok(guard) => {
                let previous = self.cells.insert(entity.0, component);
                self.lock.release(guard);
                Ok(previous)
            },
        }
    }

    /// The number of entities that own a value in this column.
    pub fn len(&self) -> (n: usize)
        requires
            self.wf(),
        ensures
            n == self.cells().ids().len(),
    {
        self.cells.len()
    }

    /// Looks up the entity's component for reading. The caller is expected
    /// to hold the column's lock.
    pub fn fetch_shared(&self, entity: EntityId) -> (value: Option<&T>)
        requires
            self.wf(),
        ensures
            value is Some <==> self@.contains_key(entity.0),
            value matches Some(v) ==> *v == self@[entity.0],
    {
        self.cells.get(entity.0)
    }

    /// Mutable access to the entity's component. The caller is expected to
    /// hold the column's lock exclusively.
    pub fn fetch_exclusive(&mut self, entity: EntityId) -> (value: Option<&mut T>)
        requires
            old(self).wf(),
        ensures
            value is Some <==> old(self)@.contains_key(entity.0),
            value is None ==> *final(self) == *old(self),
            value matches Some(v) ==> *v == old(self)@[entity.0] && final(self).wf()
                && final(self).lock().counter() == old(self).lock().counter()
                && final(self).cells().ids() == old(self).cells().ids()
                && final(self)@ == old(self)@.insert(entity.0, *final(v)),
    {
        match self.cells.slot_of(entity.0) {
            Some(slot) => Some(self.cells.value_at_mut(slot)),
            None => None,
        }
    }

    /// The slot that holds the entity's value, if it has one.
    pub fn slot_of(&self, entity: EntityId) -> (slot: Option<usize>)
        requires
            self.wf(),
        ensures
            slot is Some <==> self@.contains_key(entity.0),
            slot matches Some(s) ==> s < self.cells().ids().len() && self.cells().ids()[s as int]
                == entity.0 && self.cells().slots()[entity.0] == s,
    {
        self.cells.slot_of(entity.0)
    }

    /// The entity whose value is in slot `slot`.
    pub fn entity_at(&self, slot: usize) -> (entity: EntityId)
        requires
            self.wf(),
            slot < self.cells().ids().len(),
        ensures
            entity.0 == self.cells().ids()[slot as int],
    {
        EntityId(self.cells.id_at(slot))
    }

    /// Takes the column's lock, shared or exclusive, and keeps it until
    /// [`release`](Self::release).
    pub fn acquire(&mut self, exclusive: bool) -> (res: EcsResult<()>)
        ensures
            final(self).cells() == old(self).cells(),
            res is Ok <==> acquired(old(self).lock().counter(), exclusive) is Some,
            res is Ok ==> acquired(old(self).lock().counter(), exclusive) == Some(
                final(self).lock().counter(),
            ),
            res is Err ==> final(self).lock().counter() == old(self).lock().counter(),
            res matches Err(e) ==> e == lock_error(old(self).lock().counter(), exclusive),
    {
        if exclusive {
            match self.lock.write() {
                Ok(_guard) => Ok(()),
                Err(e) => Err(e),
            }
        } else {
            match self.lock.read() {
                Ok(_guard) => Ok(()),
                Err(e) => Err(e),
            }
        }
    }

    /// Gives up a hold on the column's lock that [`acquire`](Self::acquire)
    /// took in the same mode.
    pub fn release(&mut self, exclusive: bool)
        requires
            released(old(self).lock().counter(), exclusive) is Some,
        ensures
            final(self).cells() == old(self).cells(),
            released(old(self).lock().counter(), exclusive) == Some(final(self).lock().counter()),
    {
        if exclusive {
            self.lock.force_release_write();
        } else {
            self.lock.force_release_read();
        }
    }

    /// The word of the column's lock: `0` when it is free, `usize::MAX`
    /// while it is held exclusively, else the number of shared holders.
    pub fn lock_state(&self) -> (word: usize)
        ensures
            word == self.lock().counter(),
    {
        self.lock.state()
    }
}
impl<T> Default for TypedStorage<T> {
    /// An empty column.
    fn default() -> (column: Self)
        ensures
            column.wf(),
            column@ == Map::<usize, T>::empty(),
            column.cells().ids().len() == 0,
            column.lock().is_free(),
    {
        TypedStorage::new()
    }
}

impl<T> TypelessStorage for TypedStorage<T> {
    open spec fn valid(&self) -> bool {
        self.wf()
    }

    open spec fn entities(&self) -> Set<usize> {
        self@.dom()
    }

    open spec fn lock_word(&self) -> usize {
        self.lock().counter()
    }

    /// Removes the entity's component by swap-remove: the last value of the
    /// column moves into the vacated slot.
    fn remove(&mut self, entity: EntityId) -> (res: EcsResult<bool>)
        ensures
            res is Ok ==> final(self)@ == old(self)@.remove(entity.0),
            res is Ok ==> final(self).cells().ids() == (if old(self)@.contains_key(entity.0) {
                SparseSet::<T>::ids_without(
                    old(self).cells().ids(),
                    old(self).cells().slots()[entity.0] as int,
                )
            } else {
                old(self).cells().ids()
            }),
            res is Err ==> final(self).cells() == old(self).cells(),
            res matches Ok(empty) ==> empty == (final(self).cells().ids().len() == 0),
            !old(self)@.contains_key(entity.0) ==> final(self)@ == old(self)@,
            !old(self)@.contains_key(entity.0) ==> final(self).cells().slots() == old(self).cells().slots(),
            !old(self)@.contains_key(entity.0) ==> final(self).cells().values() == old(self).cells().values(),
    {
        if self.cells.contains(entity.0) {
            match self.lock.write() {
                Err(e) => Err(e),
                Ok(guard) => {
                    self.cells.remove(entity.0);
                    self.lock.release(guard);
                    proof {
                        self.cells.lemma_density();
                    }
                    Ok(self.cells.len() == 0)
                },
            }
        } else {
            match self.lock.read() {
                Err(e) => Err(e),
                Ok(guard) => {
                    self.lock.release(guard);
                    proof {
                        self.cells.lemma_density();
                        assert(self@ =~= old(self)@.remove(entity.0));
                    }
                    Ok(self.cells.len() == 0)
                },
            }
        }
    }

    fn has_entity(&self, entity: EntityId) -> (present: bool) {
        self.cells.contains(entity.0)
    }
}


impl<T> TypedStorage<T> {
    /// The column's three parts have one length, and the index and the
    /// reverse index agree: every id that the index maps to a slot owns that
    /// slot.
    pub proof fn lemma_dense(&self)
        requires
            self.wf(),
        ensures
            self.cells().values().len() == self.cells().ids().len(),
            self.cells().slots().dom().finite(),
            self.cells().slots().dom().len() == self.cells().ids().len(),
            forall|id: usize|
                (#[trigger] self.cells().slots().contains_key(id)) ==> self.cells().slots()[id]
                    < self.cells().ids().len() && self.cells().ids()[self.cells().slots()[id] as int]
                    == id,
    {
        self.cells().lemma_density();
    }

    /// Inserting a component for an entity that has none and removing it
    /// again leaves the column as it was: the same values for the same
    /// entities in the same slots, and the same lock word.
    pub proof fn lemma_insert_then_remove(
        start: Self,
        grown: Self,
        back: Self,
        entity: EntityId,
        component: T,
    )
        requires
            start.wf(),
            !start@.contains_key(entity.0),
            grown.wf(),
            grown.lock().counter() == start.lock().counter(),
            grown@ == start@.insert(entity.0, component),
            grown.cells().ids() == start.cells().ids().push(entity.0),
            back.wf(),
            back.lock().counter() == grown.lock().counter(),
            back@ == grown@.remove(entity.0),
            back.cells().ids() == SparseSet::<T>::ids_without(
                grown.cells().ids(),
                grown.cells().slots()[entity.0] as int,
            ),
        ensures
            back@ == start@,
            back.cells().ids() == start.cells().ids(),
            back.cells().slots() == start.cells().slots(),
            back.cells().values() == start.cells().values(),
            back.lock().counter() == start.lock().counter(),
    {
        SparseSet::lemma_insert_then_remove(
            start.cells(),
            grown.cells(),
            back.cells(),
            entity.0,
            component,
        );
    }
}
/// Every column of the world, found by the key of its component type.
pub struct Components<T> {
    columns: SparseSet<TypedStorage<T>>,
}

impl<T> Components<T> {
    /// The columns, by type key.
    pub closed spec fn columns(&self) -> SparseSet<TypedStorage<T>> {
        self.columns
    }

    /// Whether every column is sound.
    pub open spec fn columns_wf(columns: Map<usize, TypedStorage<T>>) -> bool {
        forall|k: usize| columns.contains_key(k) ==> (#[trigger] columns[k]).wf()
    }

    /// The store's index is sound and so is every column.
    pub open spec fn wf(&self) -> bool {
        &&& self.columns().wf()
        &&& Self::columns_wf(self.columns()@)
    }

    pub open spec fn has_column(&self, key: TypeKey) -> bool {
        self.columns()@.contains_key(key.0)
    }

    pub open spec fn column(&self, key: TypeKey) -> TypedStorage<T> {
        self.columns()@[key.0]
    }

    /// The components of the world: for each type key that has a column, the
    /// value of each entity in it.
    pub open spec fn view(&self) -> Map<usize, Map<usize, T>> {
        Map::new(|k: usize| self.columns()@.contains_key(k), |k: usize| self.columns()@[k]@)
    }

    /// The lock word of each column.
    pub open spec fn locks(&self) -> Map<usize, usize> {
        Map::new(
            |k: usize| self.columns()@.contains_key(k),
            |k: usize| self.columns()@[k].lock().counter(),
        )
    }

    /// Whether `entity` owns a component of type `key`.
    pub open spec fn has(&self, key: TypeKey, entity: EntityId) -> bool {
        self@.contains_key(key.0) && self@[key.0].contains_key(entity.0)
    }

    /// The values of the column of type `key`; those of an empty column where
    /// there is none.
    pub open spec fn column_view(view: Map<usize, Map<usize, T>>, key: TypeKey) -> Map<usize, T> {
        if view.contains_key(key.0) {
            view[key.0]
        } else {
            Map::empty()
        }
    }

    /// Whether a component of type `key` can be inserted: whether there is
    /// no column of that type yet, or its lock is free.
    pub open spec fn insertable(locks: Map<usize, usize>, key: TypeKey) -> bool {
        !locks.contains_key(key.0) || locks[key.0] == 0
    }

    /// How many components of the bundle, from the first on, can be
    /// inserted: all up to the first whose column is locked.
    pub open spec fn bundle_run(locks: Map<usize, usize>, bundle: Seq<(TypeKey, T)>) -> nat
        decreases bundle.len(),
    {
        if bundle.len() == 0 {
            0
        } else if !Self::insertable(locks, bundle[0].0) {
            0
        } else {
            1 + Self::bundle_run(locks, bundle.drop_first())
        }
    }

    /// The components of the world once `entity` has got the first `n`
    /// components of the bundle, one after another.
    pub open spec fn with_bundle(
        view: Map<usize, Map<usize, T>>,
        entity: EntityId,
        bundle: Seq<(TypeKey, T)>,
        n: nat,
    ) -> Map<usize, Map<usize, T>>
        decreases n,
    {
        if n == 0 {
            view
        } else {
            let before = Self::with_bundle(view, entity, bundle, (n - 1) as nat);
            before.insert(
                bundle[n - 1].0.0,
                Self::column_view(before, bundle[n - 1].0).insert(entity.0, bundle[n - 1].1),
            )
        }
    }

    /// The lock words once the first `n` components of the bundle are
    /// inserted: the columns that had to be created are there, unlocked.
    pub open spec fn locks_with_bundle(
        locks: Map<usize, usize>,
        bundle: Seq<(TypeKey, T)>,
        n: nat,
    ) -> Map<usize, usize>
        decreases n,
    {
        if n == 0 {
            locks
        } else {
            Self::locks_with_bundle(locks, bundle, (n - 1) as nat).insert(bundle[n - 1].0.0, 0)
        }
    }

    /// The components that are left when `entity` loses all of its own.
    pub open spec fn without_entity(
        view: Map<usize, Map<usize, T>>,
        entity: EntityId,
    ) -> Map<usize, Map<usize, T>> {
        Map::new(|k: usize| view.contains_key(k), |k: usize| view[k].remove(entity.0))
    }

    /// The components that are left when the columns without values go.
    pub open spec fn pruned(view: Map<usize, Map<usize, T>>) -> Map<usize, Map<usize, T>> {
        Map::new(
            |k: usize| view.contains_key(k) && view[k].dom() != Set::<usize>::empty(),
            |k: usize| view[k],
        )
    }

    /// The components that are left when every pair of `pairs`, a type key
    /// with an entity, and every entity of `gone` lose theirs. No column goes.
    pub open spec fn stripped(
        view: Map<usize, Map<usize, T>>,
        pairs: Set<(usize, usize)>,
        gone: Set<usize>,
    ) -> Map<usize, Map<usize, T>> {
        Map::new(
            |k: usize| view.contains_key(k),
            |k: usize|
                Map::new(
                    |e: usize| view[k].contains_key(e) && !pairs.contains((k, e)) && !gone.contains(e),
                    |e: usize| view[k][e],
                ),
        )
    }

    /// Whether no column's lock is held.
    pub open spec fn all_free(locks: Map<usize, usize>) -> bool {
        forall|k: usize| (#[trigger] locks.contains_key(k)) ==> locks[k] == 0
    }

    /// Whether no column's lock is held.
    pub open spec fn unlocked(&self) -> bool {
        Self::all_free(self.locks())
    }

    /// Whether every column's lock lets it carry out a removal of `entity`.
    pub open spec fn removal_allowed(&self, entity: EntityId) -> bool {
        forall|k: usize|
            self.columns()@.contains_key(k) ==> (#[trigger] self.columns()@[k]).removal_allowed(
                entity,
            )
    }
}

impl<T> Components<T> {
    pub fn new() -> (store: Self)
        ensures
            store.wf(),
            store@ == Map::<usize, Map<usize, T>>::empty(),
    {
        let store = Components { columns: SparseSet::new() };
        assert(store@ =~= Map::<usize, Map<usize, T>>::empty());
        store
    }

    /// Inserts a component of type `key` for the entity, creating the column
    /// if there is none, and returns the component it replaces. This fails,
    /// and changes nothing, exactly when the column exists and its lock is
    /// held.
    pub fn insert(&mut self, key: TypeKey, entity: EntityId, component: T) -> (res: EcsResult<
        Option<T>,
    >)
        requires
            old(self).wf(),
        ensures
            final(self).wf(),
            res is Err <==> old(self).locks().contains_key(key.0) && old(self).locks()[key.0] != 0,
            res matches Err(e) ==> e == lock_error(old(self).locks()[key.0], true),
            res is Err ==> final(self)@ == old(self)@ && final(self).locks() == old(self).locks(),
            res is Ok ==> final(self)@ == old(self)@.insert(
                key.0,
                Self::column_view(old(self)@, key).insert(entity.0, component),
            ),
            res is Ok ==> final(self).locks() == old(self).locks().insert(key.0, 0),
            res matches Ok(previous) ==> previous == (if old(self).has(key, entity) {
                Some(old(self)@[key.0][entity.0])
            } else {
                None
            }),
    {
        match self.columns.slot_of(key.0) {
            Some(slot) => {
                let column = self.columns.value_at_mut(slot);
                let res = column.insert(entity, component);
                proof {
                    assert forall|k: usize| self.columns()@.contains_key(k) implies (
                    #[trigger] self.columns()@[k]).wf() by {
                        assert(old(self).columns()@.contains_key(k));
                        assert(old(self).columns()@[k].wf());
                        if k != key.0 {
                            assert(self.columns().slots()[k] != slot);
                        }
                    }
                    if res is Ok {
                        assert(self@ =~= old(self)@.insert(
                            key.0,
                            Self::column_view(old(self)@, key).insert(entity.0, component),
                        ));
                        assert(self.locks() =~= old(self).locks().insert(key.0, 0));
                    } else {
                        assert(self@ =~= old(self)@);
                        assert(self.locks() =~= old(self).locks());
                    }
                }
                res
            },
            None => {
                self.columns.insert(key.0, TypedStorage::with(entity, component));
                proof {
                    assert(self@ =~= old(self)@.insert(
                        key.0,
                        Self::column_view(old(self)@, key).insert(entity.0, component),
                    ));
                    assert(self.locks() =~= old(self).locks().insert(key.0, 0));
                }
                Ok(None)
            },
        }
    }

    /// Gives the entity the components of a bundle, one after another, up
    /// to the first whose column is locked. This fails exactly when there
    /// is such a component; those before it are inserted all the same.
    pub fn insert_bundle(&mut self, entity: EntityId, bundle: Vec<(TypeKey, T)>) -> (res: EcsResult<
        (),
    >)
        requires
            old(self).wf(),
        ensures
            final(self).wf(),
            res is Ok <==> Self::bundle_run(old(self).locks(), bundle@) == bundle.len(),
            res matches Err(e) ==> e == lock_error(
                old(self).locks()[bundle@[Self::bundle_run(old(self).locks(), bundle@) as int].0.0],
                true,
            ),
            final(self)@ == Self::with_bundle(
                old(self)@,
                entity,
                bundle@,
                Self::bundle_run(old(self).locks(), bundle@),
            ),
            final(self).locks() == Self::locks_with_bundle(
                old(self).locks(),
                bundle@,
                Self::bundle_run(old(self).locks(), bundle@),
            ),
            old(self).unlocked() ==> final(self).unlocked(),
    {
        let ghost all = bundle@;
        let ghost first = self.locks();
        let mut rest = bundle;
        let mut done: usize = 0;
        assert(all.len() == rest.len());
        while rest.len() > 0
            invariant
                self.wf(),
                first == old(self).locks(),
                all == bundle@,
                done + rest.len() == all.len(),
                all.len() <= usize::MAX,
                rest@ == all.skip(done as int),
                forall|i: int| 0 <= i < done ==> Self::insertable(first, (#[trigger] all[i]).0),
                self@ == Self::with_bundle(old(self)@, entity, all, done as nat),
                self.locks() == Self::locks_with_bundle(first, all, done as nat),
                Self::all_free(first) ==> self.unlocked(),
            decreases rest.len(),
        {
            let (key, component) = rest.remove(0);
            proof {
                assert(all[done as int] == (key, component));
                Self::lemma_locks_with_bundle(first, all, done as nat, key);
            }
            match self.insert(key, entity, component) {
                Ok(_) => {
                    proof {
                        assert(rest@ =~= all.skip(done + 1));
                    }
                    done = done + 1;
                },
                Err(e) => {
                    proof {
                        Self::lemma_bundle_run_is(first, all, done as nat);
                    }
                    return Err(e);
                },
            }
        }
        proof {
            Self::lemma_bundle_run_is(first, all, done as nat);
        }
        Ok(())
    }

    /// Whether the entity owns a component of type `key`.
    pub fn has_component(&self, key: TypeKey, entity: EntityId) -> (present: bool)
        requires
            self.wf(),
        ensures
            present == self.has(key, entity),
    {
        match self.columns.get(key.0) {
            Some(column) => column.has_entity(entity),
            None => false,
        }
    }

    /// Looks up the entity's component of type `key` for reading. The
    /// caller is expected to hold the column's lock.
    pub fn fetch_shared(&self, key: TypeKey, entity: EntityId) -> (value: Option<&T>)
        requires
            self.wf(),
        ensures
            value is Some <==> self.has(key, entity),
            value matches Some(v) ==> *v == self@[key.0][entity.0],
    {
        match self.columns.get(key.0) {
            Some(column) => column.fetch_shared(entity),
            None => None,
        }
    }

    /// Mutable access to the entity's component of type `key`. The caller
    /// is expected to hold the column's lock exclusively.
    pub fn fetch_exclusive(&mut self, key: TypeKey, entity: EntityId) -> (value: Option<&mut T>)
        requires
            old(self).wf(),
        ensures
            value is Some <==> old(self).has(key, entity),
            value is None ==> *final(self) == *old(self),
            value matches Some(v) ==> *v == old(self)@[key.0][entity.0],
            value matches Some(v) ==> final(self).wf() && final(self).locks() == old(self).locks(),
            value matches Some(v) ==> final(self)@ == old(self)@.insert(
                key.0,
                old(self)@[key.0].insert(entity.0, *final(v)),
            ),
    {
        match self.columns.slot_of(key.0) {
            Some(slot) => {
                if self.columns.value_at(slot).has_entity(entity) {
                    let column = self.columns.value_at_mut(slot);
                    column.fetch_exclusive(entity)
                } else {
                    None
                }
            },
            None => None,
        }
    }

    /// Takes the component of type `key` away from the entity and says
    /// whether that left the column without values. Where there is no such
    /// column there is nothing to do. This fails, and changes nothing, exactly
    /// when the column exists and its lock does not allow the removal.
    pub fn remove(&mut self, key: TypeKey, entity: EntityId) -> (res: EcsResult<bool>)
        requires
            old(self).wf(),
        ensures
            final(self).wf(),
            final(self).locks() == old(self).locks(),
            res is Err <==> old(self).has_column(key) && !old(self).column(key).removal_allowed(
                entity,
            ),
            res matches Err(e) ==> e == lock_error(
                old(self).locks()[key.0],
                old(self).has(key, entity),
            ),
            res is Err ==> final(self)@ == old(self)@,
            res is Ok ==> final(self)@ == (if old(self).has_column(key) {
                old(self)@.insert(key.0, old(self)@[key.0].remove(entity.0))
            } else {
                old(self)@
            }),
            res matches Ok(empty) ==> empty == (final(self)@.contains_key(key.0)
                && final(self)@[key.0].dom() == Set::<usize>::empty()),
    {
        match self.columns.slot_of(key.0) {
            Some(slot) => {
                let column = self.columns.value_at_mut(slot);
                let res = column.remove(entity);
                proof {
                    assert forall|k: usize| self.columns()@.contains_key(k) implies (
                    #[trigger] self.columns()@[k]).wf() by {
                        assert(old(self).columns()@.contains_key(k));
                        assert(old(self).columns()@[k].wf());
                        if k != key.0 {
                            assert(self.columns().slots()[k] != slot);
                        }
                    }
                    assert(self.locks() =~= old(self).locks());
                    if res is Ok {
                        assert(self@ =~= old(self)@.insert(
                            key.0,
                            old(self)@[key.0].remove(entity.0),
                        ));
                    } else {
                        assert(self@ =~= old(self)@);
                    }
                }
                res
            },
            None => Ok(false),
        }
    }

    /// Takes every component away from the entity. No column goes, even if
    /// this leaves it without values.
    pub fn remove_entity(&mut self, entity: EntityId)
        requires
            old(self).wf(),
            old(self).removal_allowed(entity),
        ensures
            final(self).wf(),
            final(self).locks() == old(self).locks(),
            final(self)@ == Self::without_entity(old(self)@, entity),
    {
        let n = self.columns.len();
        let mut i: usize = 0;
        while i < n
            invariant
                i <= n,
                n == self.columns().ids().len(),
                self.wf(),
                self.columns().ids() == old(self).columns().ids(),
                self.columns().slots() == old(self).columns().slots(),
                old(self).wf(),
                old(self).removal_allowed(entity),
                forall|j: int|
                    0 <= j < i ==> (#[trigger] self.columns().values()[j])@ == old(
                        self,
                    ).columns().values()[j]@.remove(entity.0),
                forall|j: int|
                    i <= j < n ==> #[trigger] self.columns().values()[j] == old(
                        self,
                    ).columns().values()[j],
                forall|j: int|
                    0 <= j < n ==> (#[trigger] self.columns().values()[j]).lock().counter() == old(
                        self,
                    ).columns().values()[j].lock().counter(),
            decreases n - i,
        {
            let ghost before = *self;
            let ghost k = self.columns().ids()[i as int];
            assert(old(self).columns()@.contains_key(k));
            assert(old(self).columns()@[k].removal_allowed(entity));
            assert(self.columns()@.contains_key(k));
            assert(self.columns()@[k].wf());
            let column = self.columns.value_at_mut(i);
            let res = column.remove(entity);
            proof {
                assert(res is Ok);
                assert forall|k2: usize| self.columns()@.contains_key(k2) implies (
                #[trigger] self.columns()@[k2]).wf() by {
                    assert(before.columns()@.contains_key(k2));
                    assert(before.columns()@[k2].wf());
                    if k2 != k {
                        assert(self.columns().slots()[k2] != i);
                    }
                }
            }
            i = i + 1;
        }
        proof {
            assert(self.locks() =~= old(self).locks());
            assert(self@ =~= Self::without_entity(old(self)@, entity));
        }
    }

    /// Drops every column that holds no value. The others stay as they are.
    pub fn prune(&mut self)
        requires
            old(self).wf(),
        ensures
            final(self).wf(),
            final(self)@ == Self::pruned(old(self)@),
            final(self).locks() == old(self).locks().restrict(final(self)@.dom()),
    {
        let mut i: usize = 0;
        while i < self.columns.len()
            invariant
                self.wf(),
                old(self).wf(),
                i <= self.columns().ids().len(),
                forall|k: usize| #[trigger]
                    self.columns()@.contains_key(k) ==> old(self).columns()@.contains_key(k)
                        && self.columns()@[k] == old(self).columns()@[k],
                forall|k: usize| #[trigger]
                    old(self).columns()@.contains_key(k) && old(self).columns()@[k]@.dom()
                        != Set::<usize>::empty() ==> self.columns()@.contains_key(k),
                forall|k: usize| #[trigger]
                    self.columns()@.contains_key(k) && self.columns().slots()[k] < i
                        ==> self.columns()@[k]@.dom() != Set::<usize>::empty(),
            decreases self.columns().ids().len() - i,
        {
            let ghost before = *self;
            let k = self.columns.id_at(i);
            let column = self.columns.value_at(i);
            proof {
                assert(self.columns()@[k].wf());
                column.cells().lemma_density();
            }
            if column.len() == 0 {
                self.columns.remove(k);
                proof {
                    assert forall|k2: usize| #[trigger]
                        self.columns()@.contains_key(k2) && self.columns().slots()[k2]
                            < i implies self.columns()@[k2]@.dom() != Set::<usize>::empty() by {
                        assert(before.columns()@.contains_key(k2));
                        assert(before.columns().slots().contains_key(k2));
                        assert(self.columns().slots().contains_key(k2));
                    }
                }
            } else {
                i = i + 1;
                proof {
                    assert forall|k2: usize| #[trigger]
                        self.columns()@.contains_key(k2) && self.columns().slots()[k2]
                            < i implies self.columns()@[k2]@.dom() != Set::<usize>::empty() by {
                        assert(self.columns().slots().contains_key(k2));
                    }
                }
            }
        }
        proof {
            assert forall|k: usize| #[trigger]
                self.columns()@.contains_key(k) implies self.columns()@[k]@.dom() != Set::<
                usize,
            >::empty() by {
                assert(self.columns().slots().contains_key(k));
            }
            assert(self@ =~= Self::pruned(old(self)@));
            assert(self.locks() =~= old(self).locks().restrict(self@.dom()));
        }
    }

    /// Takes every component away from the entity and drops the columns that
    /// are left without values.
    pub fn despawn(&mut self, entity: EntityId)
        requires
            old(self).wf(),
            old(self).removal_allowed(entity),
        ensures
            final(self).wf(),
            final(self)@ == Self::pruned(Self::without_entity(old(self)@, entity)),
            final(self).locks() == old(self).locks().restrict(final(self)@.dom()),
            forall|key: TypeKey| !final(self).has(key, entity),
    {
        self.remove_entity(entity);
        self.prune();
    }

    /// Grants one lock request: takes the lock of the column of type `key`
    /// in the given mode, if there is such a column. This fails, and changes
    /// nothing, exactly when the lock cannot be taken in that mode.
    pub fn lock_column(&mut self, key: TypeKey, exclusive: bool) -> (res: EcsResult<()>)
        requires
            old(self).wf(),
        ensures
            final(self).wf(),
            final(self)@ == old(self)@,
            res is Ok <==> lock_step(old(self).locks(), (key.0, exclusive)) is Some,
            res is Ok ==> lock_step(old(self).locks(), (key.0, exclusive)) == Some(
                final(self).locks(),
            ),
            res is Err ==> final(self).locks() == old(self).locks(),
            res matches Err(e) ==> e == lock_error(old(self).locks()[key.0], exclusive),
    {
        match self.columns.slot_of(key.0) {
            Some(slot) => {
                let column = self.columns.value_at_mut(slot);
                let res = column.acquire(exclusive);
                proof {
                    SparseSet::lemma_value_replaced(old(self).columns, self.columns, slot as int);
                    assert(Self::columns_wf(self.columns()@)) by {
                        assert(old(self).columns()@.contains_key(key.0));
                        assert(old(self).columns()@[key.0].wf());
                    }
                    assert(self@ =~= old(self)@);
                    if res is Ok {
                        assert(self.locks() =~= lock_step(
                            old(self).locks(),
                            (key.0, exclusive),
                        )->0);
                    } else {
                        assert(self.locks() =~= old(self).locks());
                    }
                }
                res
            },
            None => Ok(()),
        }
    }

    /// Gives up the hold of one lock request on the column of type `key`,
    /// if there is such a column.
    pub fn unlock_column(&mut self, key: TypeKey, exclusive: bool)
        requires
            old(self).wf(),
            unlock_step(old(self).locks(), (key.0, exclusive)) is Some,
        ensures
            final(self).wf(),
            final(self)@ == old(self)@,
            unlock_step(old(self).locks(), (key.0, exclusive)) == Some(final(self).locks()),
    {
        match self.columns.slot_of(key.0) {
            Some(slot) => {
                let column = self.columns.value_at_mut(slot);
                column.release(exclusive);
                proof {
                    SparseSet::lemma_value_replaced(old(self).columns, self.columns, slot as int);
                    assert(Self::columns_wf(self.columns()@)) by {
                        assert(old(self).columns()@.contains_key(key.0));
                        assert(old(self).columns()@[key.0].wf());
                    }
                    assert(self@ =~= old(self)@);
                    assert(self.locks() =~= unlock_step(
                        old(self).locks(),
                        (key.0, exclusive),
                    )->0);
                }
            },
            None => {},
        }
    }

    /// Whether no column's lock is held.
    pub fn is_unlocked(&self) -> (free: bool)
        requires
            self.wf(),
        ensures
            free == self.unlocked(),
    {
        let n = self.columns.len();
        let mut i: usize = 0;
        while i < n
            invariant
                i <= n,
                self.wf(),
                n == self.columns().ids().len(),
                forall|j: int|
                    0 <= j < i ==> (#[trigger] self.columns().values()[j]).lock().counter() == 0,
            decreases n - i,
        {
            if self.columns.value_at(i).lock_state() != 0 {
                proof {
                    let k = self.columns().ids()[i as int];
                    assert(self.locks().contains_key(k));
                    assert(self.locks()[k] != 0);
                }
                return false;
            }
            i = i + 1;
        }
        proof {
            assert forall|k: usize| (#[trigger] self.locks().contains_key(k)) implies self.locks()[k]
                == 0 by {
                assert(self.columns().slots().contains_key(k));
                let j = self.columns().slots()[k] as int;
                assert(self.columns().values()[j].lock().counter() == 0);
            }
        }
        true
    }

    /// The number of columns.
    pub fn column_count(&self) -> (n: usize)
        requires
            self.wf(),
        ensures
            n == self@.dom().len(),
            self@.dom().finite(),
    {
        proof {
            self.columns.lemma_density();
            assert(self@.dom() =~= self.columns()@.dom());
        }
        self.columns.len()
    }

    /// The column of type `key`, if there is one.
    pub fn get_column(&self, key: TypeKey) -> (column: Option<&TypedStorage<T>>)
        requires
            self.wf(),
        ensures
            column is Some <==> self.has_column(key),
            column matches Some(c) ==> *c == self.column(key) && c.wf(),
    {
        self.columns.get(key.0)
    }
}

/// What an entity can be spawned with: some components, each under the key
/// of its type, in the order in which they are inserted.
pub trait SpawnBundle<T>: Sized {
    /// The components of the bundle, first to last.
    spec fn components(self) -> Seq<(TypeKey, T)>;

    /// Gives the entity the components of the bundle, one after another, up
    /// to the first whose column is locked. This fails exactly when there
    /// is such a component; those before it are inserted all the same.
    fn insert_into(self, components: &mut Components<T>, entity: EntityId) -> (res: EcsResult<()>)
        requires
            old(components).wf(),
        ensures
            final(components).wf(),
            res is Ok <==> Components::<T>::bundle_run(old(components).locks(), self.components())
                == self.components().len(),
            res matches Err(e) ==> e == lock_error(
                old(components).locks()[self.components()[Components::<T>::bundle_run(
                    old(components).locks(),
                    self.components(),
                ) as int].0.0],
                true,
            ),
            final(components)@ == Components::<T>::with_bundle(
                old(components)@,
                entity,
                self.components(),
                Components::<T>::bundle_run(old(components).locks(), self.components()),
            ),
            final(components).locks() == Components::<T>::locks_with_bundle(
                old(components).locks(),
                self.components(),
                Components::<T>::bundle_run(old(components).locks(), self.components()),
            ),
            old(components).unlocked() ==> final(components).unlocked(),
    ;
}

/// The bundle without components.
impl<T> SpawnBundle<T> for () {
    open spec fn components(self) -> Seq<(TypeKey, T)> {
        Seq::empty()
    }

    fn insert_into(self, components: &mut Components<T>, entity: EntityId) -> (res: EcsResult<()>) {
        components.insert_bundle(entity, Vec::new())
    }
}

/// The bundle of one component.
impl<T> SpawnBundle<T> for (TypeKey, T) {
    open spec fn components(self) -> Seq<(TypeKey, T)> {
        seq![self]
    }

    fn insert_into(self, components: &mut Components<T>, entity: EntityId) -> (res: EcsResult<()>) {
        let mut bundle = Vec::new();
        bundle.push(self);
        assert(bundle@ =~= seq![self]);
        components.insert_bundle(entity, bundle)
    }
}

/// The bundle of two components.
impl<T> SpawnBundle<T> for ((TypeKey, T), (TypeKey, T)) {
    open spec fn components(self) -> Seq<(TypeKey, T)> {
        seq![self.0, self.1]
    }

    fn insert_into(self, components: &mut Components<T>, entity: EntityId) -> (res: EcsResult<()>) {
        let mut bundle = Vec::new();
        bundle.push(self.0);
        bundle.push(self.1);
        assert(bundle@ =~= seq![self.0, self.1]);
        components.insert_bundle(entity, bundle)
    }
}

/// The bundle of any number of components.
impl<T> SpawnBundle<T> for Vec<(TypeKey, T)> {
    open spec fn components(self) -> Seq<(TypeKey, T)> {
        self@
    }

    fn insert_into(self, components: &mut Components<T>, entity: EntityId) -> (res: EcsResult<()>) {
        components.insert_bundle(entity, self)
    }
}

impl<T> Default for Components<T> {
    /// A store without columns.
    fn default() -> (store: Self)
        ensures
            store.wf(),
            store@ == Map::<usize, Map<usize, T>>::empty(),
    {
        Components::new()
    }
}

impl<T> Components<T> {
    /// Every column is dense: its three parts have one length, and its
    /// index and reverse index agree.
    pub proof fn lemma_columns_dense(&self, key: TypeKey)
        requires
            self.wf(),
            self.has_column(key),
        ensures
            self.column(key).cells().values().len() == self.column(key).cells().ids().len(),
            self.column(key).cells().slots().dom().finite(),
            self.column(key).cells().slots().dom().len() == self.column(key).cells().ids().len(),
            forall|id: usize|
                (#[trigger] self.column(key).cells().slots().contains_key(id)) ==> self.column(
                    key,
                ).cells().slots()[id] < self.column(key).cells().ids().len() && self.column(
                    key,
                ).cells().ids()[self.column(key).cells().slots()[id] as int] == id,
    {
        assert(self.columns()@[key.0].wf());
        self.column(key).lemma_dense();
    }

    /// Despawning an entity that owns no component changes no component.
    pub proof fn lemma_despawn_again(view: Map<usize, Map<usize, T>>, entity: EntityId)
        requires
            forall|k: usize| view.contains_key(k) ==> !(#[trigger] view[k]).contains_key(entity.0),
        ensures
            Self::without_entity(view, entity) == view,
    {
        assert forall|k: usize| view.contains_key(k) implies #[trigger] view[k].remove(entity.0)
            == view[k] by {
            assert(!view[k].contains_key(entity.0));
            assert(view[k].remove(entity.0) =~= view[k]);
        }
        assert(Self::without_entity(view, entity) =~= view);
    }

    /// Taking the last component out of a column leaves a column without
    /// values, and pruning drops it.
    pub proof fn lemma_last_component_prunes(
        view: Map<usize, Map<usize, T>>,
        key: TypeKey,
        entity: EntityId,
    )
        requires
            view.contains_key(key.0),
            view[key.0].dom() == Set::<usize>::empty().insert(entity.0),
        ensures
            view.insert(key.0, view[key.0].remove(entity.0))[key.0].dom() == Set::<usize>::empty(),
            !Self::pruned(view.insert(key.0, view[key.0].remove(entity.0))).contains_key(key.0),
            !Self::pruned(Self::without_entity(view, entity)).contains_key(key.0),
    {
        assert(view[key.0].remove(entity.0).dom() =~= Set::<usize>::empty());
    }

    /// With no lock held, every removal is allowed.
    pub proof fn lemma_unlocked_allows(&self, entity: EntityId)
        requires
            self.unlocked(),
        ensures
            self.removal_allowed(entity),
            forall|key: TypeKey|
                self.has_column(key) ==> (#[trigger] self.column(key)).removal_allowed(entity),
    {
        assert forall|k: usize| self.columns()@.contains_key(k) implies (
        #[trigger] self.columns()@[k]).removal_allowed(entity) by {
            assert(self.locks().contains_key(k));
        }
        assert forall|key: TypeKey| self.has_column(key) implies (#[trigger] self.column(
            key,
        )).removal_allowed(entity) by {
            assert(self.columns()@.contains_key(key.0));
            assert(self.columns()@[key.0].removal_allowed(entity));
        }
    }

    /// Nothing stripped leaves everything.
    pub proof fn lemma_strip_nothing(view: Map<usize, Map<usize, T>>)
        ensures
            Self::stripped(view, Set::empty(), Set::empty()) == view,
    {
        assert(Self::stripped(view, Set::empty(), Set::empty()) =~~= view);
    }

    /// Taking one more component away is stripping one more pair.
    pub proof fn lemma_strip_pair(
        view: Map<usize, Map<usize, T>>,
        pairs: Set<(usize, usize)>,
        gone: Set<usize>,
        key: TypeKey,
        entity: EntityId,
    )
        ensures
            Self::stripped(view, pairs.insert((key.0, entity.0)), gone) == (if view.contains_key(
                key.0,
            ) {
                Self::stripped(view, pairs, gone).insert(
                    key.0,
                    Self::stripped(view, pairs, gone)[key.0].remove(entity.0),
                )
            } else {
                Self::stripped(view, pairs, gone)
            }),
    {
        let now = Self::stripped(view, pairs, gone);
        let next = Self::stripped(view, pairs.insert((key.0, entity.0)), gone);
        if view.contains_key(key.0) {
            assert(next =~~= now.insert(key.0, now[key.0].remove(entity.0)));
        } else {
            assert(next =~~= now);
        }
    }

    /// Taking every component of one more entity away is stripping one more
    /// entity.
    pub proof fn lemma_strip_entity(
        view: Map<usize, Map<usize, T>>,
        pairs: Set<(usize, usize)>,
        gone: Set<usize>,
        entity: EntityId,
    )
        ensures
            Self::stripped(view, pairs, gone.insert(entity.0)) == Self::without_entity(
                Self::stripped(view, pairs, gone),
                entity,
            ),
    {
        assert(Self::stripped(view, pairs, gone.insert(entity.0)) =~~= Self::without_entity(
            Self::stripped(view, pairs, gone),
            entity,
        ));
    }

    /// Stripping pairs and then entities is stripping both at once.
    pub proof fn lemma_strip_twice(
        view: Map<usize, Map<usize, T>>,
        pairs: Set<(usize, usize)>,
        gone: Set<usize>,
    )
        ensures
            Self::stripped(Self::stripped(view, pairs, Set::empty()), Set::empty(), gone)
                == Self::stripped(view, pairs, gone),
    {
        assert(Self::stripped(Self::stripped(view, pairs, Set::empty()), Set::empty(), gone)
            =~~= Self::stripped(view, pairs, gone));
    }

    /// Columns that an inserted bundle creates are unlocked, and the others
    /// keep their lock words.
    proof fn lemma_locks_with_bundle(locks: Map<usize, usize>, bundle: Seq<(TypeKey, T)>, n: nat, key: TypeKey)
        requires
            n <= bundle.len(),
            forall|i: int| 0 <= i < n ==> Self::insertable(locks, (#[trigger] bundle[i]).0),
        ensures
            Self::insertable(locks, key) == Self::insertable(
                Self::locks_with_bundle(locks, bundle, n),
                key,
            ),
            !Self::insertable(locks, key) ==> Self::locks_with_bundle(locks, bundle, n)[key.0]
                == locks[key.0],
        decreases n,
    {
        if n > 0 {
            Self::lemma_locks_with_bundle(locks, bundle, (n - 1) as nat, key);
            Self::lemma_locks_with_bundle(locks, bundle, (n - 1) as nat, bundle[n - 1].0);
            assert(Self::insertable(locks, bundle[n - 1].0));
        }
    }

    /// Where the first `n` components of a bundle can be inserted and the
    /// next cannot, or there is no next, the run of the bundle is `n`.
    proof fn lemma_bundle_run_is(locks: Map<usize, usize>, bundle: Seq<(TypeKey, T)>, n: nat)
        requires
            n <= bundle.len(),
            forall|i: int| 0 <= i < n ==> Self::insertable(locks, (#[trigger] bundle[i]).0),
            n < bundle.len() ==> !Self::insertable(locks, bundle[n as int].0),
        ensures
            Self::bundle_run(locks, bundle) == n,
        decreases bundle.len(),
    {
        if bundle.len() > 0 && n > 0 {
            let rest = bundle.drop_first();
            assert(Self::insertable(locks, bundle[0].0));
            assert forall|i: int| 0 <= i < n - 1 implies Self::insertable(
                locks,
                (#[trigger] rest[i]).0,
            ) by {
                assert(rest[i] == bundle[i + 1]);
            }
            if n < bundle.len() {
                assert(rest[n - 1] == bundle[n as int]);
            }
            Self::lemma_bundle_run_is(locks, rest, (n - 1) as nat);
        }
    }
}
} // verus!
