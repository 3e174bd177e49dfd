use vstd::prelude::*;
use crate::component::TypeKey;
use crate::error::{EcsError, EcsResult};
use crate::scheduler::SystemParamDescriptor;
use crate::sparse::SparseSet;
use crate::util::{acquired, lock_error, released, unlock_step, PersistentLock};

verus! {

/// Marks a user type as a resource.
pub trait Resource: Send + Sync + 'static {

}

/// A resource with the lock that guards it.
pub struct ResourceSingleton<R> {
    lock: PersistentLock,
    resource: R,
}

impl<R> ResourceSingleton<R> {
    /// The word of the resource's lock.
    pub closed spec fn lock_word(&self) -> usize {
        self.lock.counter()
    }

    /// The resource itself.
    pub closed spec fn value(&self) -> R {
        self.resource
    }

    /// A resource that nobody holds.
    pub fn new(resource: R) -> (singleton: Self)
        ensures
            singleton.value() == resource,
            singleton.lock_word() == 0,
    {
        ResourceSingleton { lock: PersistentLock::new(), resource }
    }

    /// The resource. The caller is expected to hold its lock.
    pub fn get(&self) -> (resource: &R)
        ensures
            *resource == self.value(),
    {
        &self.resource
    }

    /// Mutable access to the resource. The caller is expected to hold its
    /// lock exclusively.
    pub fn get_mut(&mut self) -> (resource: &mut R)
        ensures
            *resource == old(self).value(),
            final(self).value() == *final(resource),
            final(self).lock_word() == old(self).lock_word(),
    {
        &mut self.resource
    }

    /// Takes the resource's lock, shared or exclusive.
    pub fn acquire(&mut self, exclusive: bool) -> (res: EcsResult<()>)
        ensures
            final(self).value() == old(self).value(),
            res is Ok <==> acquired(old(self).lock_word(), exclusive) is Some,
            res is Ok ==> acquired(old(self).lock_word(), exclusive) == Some(final(self).lock_word()),
            res is Err ==> final(self).lock_word() == old(self).lock_word(),
            res matches Err(e) ==> e == lock_error(old(self).lock_word(), exclusive),
    {
        if exclusive {
            match self.lock.write() {
                Ok(_guard) => Ok(()),
                Err(e) => Err(e),
            }
        } else {
            match self.lock.read() {
                Ok(_guard) => Ok(()),
                Err(e) => Err(e),
            }
        }
    }

    /// Gives up a hold on the resource's lock.
    pub fn release(&mut self, exclusive: bool)
        requires
            released(old(self).lock_word(), exclusive) is Some,
        ensures
            final(self).value() == old(self).value(),
            released(old(self).lock_word(), exclusive) == Some(final(self).lock_word()),
    {
        if exclusive {
            self.lock.force_release_write();
        } else {
            self.lock.force_release_read();
        }
    }
}

/// The singletons of the world, found by the key of their type.
pub struct Resources<R> {
    map: SparseSet<ResourceSingleton<R>>,
}

impl<R> Resources<R> {
    /// The singletons, by type key.
    pub closed spec fn singletons(&self) -> SparseSet<ResourceSingleton<R>> {
        self.map
    }

    pub open spec fn wf(&self) -> bool {
        self.singletons().wf()
    }

    /// The resources that were inserted.
    pub open spec fn view(&self) -> Map<usize, R> {
        Map::new(
            |k: usize| self.singletons()@.contains_key(k),
            |k: usize| self.singletons()@[k].value(),
        )
    }

    /// The lock word of each resource.
    pub open spec fn locks(&self) -> Map<usize, usize> {
        Map::new(
            |k: usize| self.singletons()@.contains_key(k),
            |k: usize| self.singletons()@[k].lock_word(),
        )
    }

    /// Whether the lock of the resource of type `key` can be taken in the
    /// given mode: whether there is such a resource and its lock allows it.
    pub open spec fn lockable(locks: Map<usize, usize>, key: TypeKey, exclusive: bool) -> bool {
        locks.contains_key(key.0) && acquired(locks[key.0], exclusive) is Some
    }

    /// The error of an attempt to take the lock of the resource of type
    /// `key` that fails: there is no such resource, or its lock does not
    /// allow it.
    pub open spec fn lock_refusal(locks: Map<usize, usize>, key: TypeKey, exclusive: bool) -> EcsError {
        if locks.contains_key(key.0) {
            lock_error(locks[key.0], exclusive)
        } else {
            EcsError::NotFound
        }
    }

    /// The lock words after the lock of the resource of type `key` is taken
    /// in the given mode.
    pub open spec fn locked(locks: Map<usize, usize>, key: TypeKey, exclusive: bool) -> Map<
        usize,
        usize,
    > {
        locks.insert(key.0, acquired(locks[key.0], exclusive)->0)
    }

    pub fn new() -> (resources: Self)
        ensures
            resources.wf(),
            resources@ == Map::<usize, R>::empty(),
    {
        let resources = Resources { map: SparseSet::new() };
        assert(resources@ =~= Map::<usize, R>::empty());
        resources
    }

    /// Inserts the resource of type `key`, in place of the one that may be
    /// there. Nobody holds the new resource.
    pub fn insert(&mut self, key: TypeKey, resource: R)
        requires
            old(self).wf(),
        ensures
            final(self).wf(),
            final(self)@ == old(self)@.insert(key.0, resource),
            final(self).locks() == old(self).locks().insert(key.0, 0),
    {
        self.map.insert(key.0, ResourceSingleton::new(resource));
        proof {
            assert(self@ =~= old(self)@.insert(key.0, resource));
            assert(self.locks() =~= old(self).locks().insert(key.0, 0));
        }
    }

    /// The resource of type `key`. The caller is expected to hold its lock.
    pub fn get(&self, key: TypeKey) -> (res: EcsResult<&R>)
        requires
            self.wf(),
        ensures
            res is Ok <==> self@.contains_key(key.0),
            res matches Ok(resource) ==> *resource == self@[key.0],
            res matches Err(e) ==> e == EcsError::NotFound,
    {
        match self.map.get(key.0) {
            Some(singleton) => Ok(singleton.get()),
            None => Err(EcsError::NotFound),
        }
    }

    /// Mutable access to the resource of type `key`. The caller is
    /// expected to hold its lock exclusively.
    pub fn get_mut(&mut self, key: TypeKey) -> (res: EcsResult<&mut R>)
        requires
            old(self).wf(),
        ensures
            res is Ok <==> old(self)@.contains_key(key.0),
            res matches Err(e) ==> e == EcsError::NotFound && *final(self) == *old(self),
            res matches Ok(resource) ==> *resource == old(self)@[key.0],
            res matches Ok(resource) ==> final(self).wf() && final(self).locks() == old(self).locks(),
            res matches Ok(resource) ==> final(self)@ == old(self)@.insert(key.0, *final(resource)),
    {
        match self.map.slot_of(key.0) {
            Some(slot) => {
                let singleton = self.map.value_at_mut(slot);
                Ok(singleton.get_mut())
            },
            None => Err(EcsError::NotFound),
        }
    }

    /// The lock word of the resource of type `key`, if there is such a
    /// resource.
    pub fn lock_state(&self, key: TypeKey) -> (word: Option<usize>)
        requires
            self.wf(),
        ensures
            word is Some <==> self.locks().contains_key(key.0),
            word matches Some(w) ==> w == self.locks()[key.0],
    {
        match self.map.get(key.0) {
            Some(singleton) => Some(singleton.lock.state()),
            None => None,
        }
    }

    /// Takes the lock of the resource of type `key`, shared or exclusive.
    fn acquire(&mut self, key: TypeKey, exclusive: bool) -> (res: EcsResult<()>)
        requires
            old(self).wf(),
        ensures
            final(self).wf(),
            final(self)@ == old(self)@,
            res is Ok <==> Self::lockable(old(self).locks(), key, exclusive),
            res is Ok ==> final(self).locks() == Self::locked(old(self).locks(), key, exclusive),
            res is Err ==> final(self).locks() == old(self).locks(),
            res matches Err(e) ==> e == Self::lock_refusal(old(self).locks(), key, exclusive),
    {
        match self.map.slot_of(key.0) {
            Some(slot) => {
                let singleton = self.map.value_at_mut(slot);
                let res = singleton.acquire(exclusive);
                proof {
                    assert(self@ =~= old(self)@);
                    if res is Ok {
                        assert(self.locks() =~= Self::locked(old(self).locks(), key, exclusive));
                    } else {
                        assert(self.locks() =~= old(self).locks());
                    }
                }
                res
            },
            None => Err(EcsError::NotFound),
        }
    }

    /// Obtains a read lock on the resource of type `key`. This fails with
    /// `NotFound` where no such resource was inserted, and with
    /// `StorageLocked` where its lock cannot be shared.
    pub fn read(&mut self, key: TypeKey) -> (res: EcsResult<()>)
        requires
            old(self).wf(),
        ensures
            final(self).wf(),
            final(self)@ == old(self)@,
            res is Ok <==> Self::lockable(old(self).locks(), key, false),
            res is Ok ==> final(self).locks() == Self::locked(old(self).locks(), key, false),
            res is Err ==> final(self).locks() == old(self).locks(),
            res matches Err(e) ==> e == Self::lock_refusal(old(self).locks(), key, false),
    {
        self.acquire(key, false)
    }

    /// Obtains a write lock on the resource of type `key`. This fails with
    /// `NotFound` where no such resource was inserted, and with
    /// `StorageLocked` where its lock is held.
    pub fn write(&mut self, key: TypeKey) -> (res: EcsResult<()>)
        requires
            old(self).wf(),
        ensures
            final(self).wf(),
            final(self)@ == old(self)@,
            res is Ok <==> Self::lockable(old(self).locks(), key, true),
            res is Ok ==> final(self).locks() == Self::locked(old(self).locks(), key, true),
            res is Err ==> final(self).locks() == old(self).locks(),
            res matches Err(e) ==> e == Self::lock_refusal(old(self).locks(), key, true),
    {
        self.acquire(key, true)
    }

    /// Gives up a hold on the lock of the resource of type `key`, if there
    /// is such a resource.
    fn release(&mut self, key: TypeKey, exclusive: bool)
        requires
            old(self).wf(),
            unlock_step(old(self).locks(), (key.0, exclusive)) is Some,
        ensures
            final(self).wf(),
            final(self)@ == old(self)@,
            unlock_step(old(self).locks(), (key.0, exclusive)) == Some(final(self).locks()),
    {
        match self.map.slot_of(key.0) {
            Some(slot) => {
                let singleton = self.map.value_at_mut(slot);
                singleton.release(exclusive);
                proof {
                    assert(self@ =~= old(self)@);
                    assert(self.locks() =~= old(self).locks().insert(
                        key.0,
                        released(old(self).locks()[key.0], exclusive)->0,
                    ));
                }
            },
            None => {},
        }
    }

    /// Unlocks one read lock on the resource of type `key`. It must be
    /// held.
    pub fn force_release_read(&mut self, key: TypeKey)
        requires
            old(self).wf(),
            unlock_step(old(self).locks(), (key.0, false)) is Some,
        ensures
            final(self).wf(),
            final(self)@ == old(self)@,
            unlock_step(old(self).locks(), (key.0, false)) == Some(final(self).locks()),
    {
        self.release(key, false)
    }

    /// Unlocks the write lock on the resource of type `key`. It must be
    /// held.
    pub fn force_release_write(&mut self, key: TypeKey)
        requires
            old(self).wf(),
            unlock_step(old(self).locks(), (key.0, true)) is Some,
        ensures
            final(self).wf(),
            final(self)@ == old(self)@,
            unlock_step(old(self).locks(), (key.0, true)) == Some(final(self).locks()),
    {
        self.release(key, true)
    }
}

impl<R> Default for Resources<R> {
    /// A store without resources.
    fn default() -> (resources: Self)
        ensures
            resources.wf(),
            resources@ == Map::<usize, R>::empty(),
    {
        Resources::new()
    }
}

/// Shared access to the resource of one type. The handle takes the
/// resource's lock when it is first used and keeps it until it is released.
pub struct Res {
    key: TypeKey,
    locked: bool,
}

impl Res {
    /// The key of the resource's type.
    pub closed spec fn key(&self) -> TypeKey {
        self.key
    }

    /// Whether the handle holds the resource's lock.
    pub closed spec fn locked(&self) -> bool {
        self.locked
    }

    /// What the handle means to the scheduler: shared access to its
    /// resource.
    pub fn descriptor(key: TypeKey) -> (param: SystemParamDescriptor)
        ensures
            param == SystemParamDescriptor::Res(key),
    {
        SystemParamDescriptor::Res(key)
    }

    /// A handle that holds no lock yet.
    pub fn fetch(key: TypeKey) -> (handle: Self)
        ensures
            handle.key() == key,
            !handle.locked(),
    {
        Res { key, locked: false }
    }

    /// The resource. The first use takes a read lock on it, which fails
    /// with `NotFound` where no such resource was inserted and with
    /// `StorageLocked` where the lock cannot be shared.
    pub fn deref<'a, R>(&mut self, resources: &'a mut Resources<R>) -> (res: EcsResult<&'a R>)
        requires
            old(resources).wf(),
        ensures
            final(self).key() == old(self).key(),
            final(resources).wf(),
            final(resources)@ == old(resources)@,
            res is Ok <==> old(resources)@.contains_key(old(self).key().0) && (old(self).locked()
                || Resources::<R>::lockable(old(resources).locks(), old(self).key(), false)),
            res matches Ok(resource) ==> *resource == old(resources)@[old(self).key().0],
            res matches Err(e) ==> e == Resources::<R>::lock_refusal(
                old(resources).locks(),
                old(self).key(),
                false,
            ),
            final(self).locked() == (old(self).locked() || res is Ok),
            final(resources).locks() == (if !old(self).locked() && res is Ok {
                Resources::<R>::locked(old(resources).locks(), old(self).key(), false)
            } else {
                old(resources).locks()
            }),
    {
        if !self.locked {
            match resources.read(self.key) {
                Ok(()) => {
                    self.locked = true;
                },
                Err(e) => {
                    return Err(e);
                },
            }
        }
        resources.get(self.key)
    }

    /// Ends the handle's use: gives up the read lock, if the handle took
    /// one.
    pub fn release<R>(&mut self, resources: &mut Resources<R>)
        requires
            old(resources).wf(),
            old(self).locked() ==> unlock_step(
                old(resources).locks(),
                (old(self).key().0, false),
            ) is Some,
        ensures
            final(self).key() == old(self).key(),
            !final(self).locked(),
            final(resources).wf(),
            final(resources)@ == old(resources)@,
            final(resources).locks() == (if old(self).locked() {
                unlock_step(old(resources).locks(), (old(self).key().0, false))->0
            } else {
                old(resources).locks()
            }),
    {
        if self.locked {
            resources.force_release_read(self.key);
            self.locked = false;
        }
    }
}

/// Exclusive access to the resource of one type. The handle takes the
/// resource's lock when it is first used and keeps it until it is released.
pub struct ResMut {
    key: TypeKey,
    locked: bool,
}

impl ResMut {
    /// The key of the resource's type.
    pub closed spec fn key(&self) -> TypeKey {
        self.key
    }

    /// Whether the handle holds the resource's lock.
    pub closed spec fn locked(&self) -> bool {
        self.locked
    }

    /// What the handle means to the scheduler: exclusive access to its
    /// resource.
    pub fn descriptor(key: TypeKey) -> (param: SystemParamDescriptor)
        ensures
            param == SystemParamDescriptor::ResMut(key),
    {
        SystemParamDescriptor::ResMut(key)
    }

    /// A handle that holds no lock yet.
    pub fn fetch(key: TypeKey) -> (handle: Self)
        ensures
            handle.key() == key,
            !handle.locked(),
    {
        ResMut { key, locked: false }
    }

    /// Takes the write lock on the resource, unless the handle holds it
    /// already.
    fn lock<R>(&mut self, resources: &mut Resources<R>) -> (res: EcsResult<()>)
        requires
            old(resources).wf(),
        ensures
            final(self).key() == old(self).key(),
            final(resources).wf(),
            final(resources)@ == old(resources)@,
            res is Ok <==> old(self).locked() || Resources::<R>::lockable(
                old(resources).locks(),
                old(self).key(),
                true,
            ),
            res matches Err(e) ==> e == Resources::<R>::lock_refusal(
                old(resources).locks(),
                old(self).key(),
                true,
            ),
            final(self).locked() == (old(self).locked() || res is Ok),
            final(resources).locks() == (if !old(self).locked() && res is Ok {
                Resources::<R>::locked(old(resources).locks(), old(self).key(), true)
            } else {
                old(resources).locks()
            }),
    {
        if !self.locked {
            match resources.write(self.key) {
                Ok(()) => {
                    self.locked = true;
                },
                Err(e) => {
                    return Err(e);
                },
            }
        }
        Ok(())
    }

    /// The resource, for reading. The first use takes a write lock on it,
    /// which fails with `NotFound` where no such resource was inserted and
    /// with `StorageLocked` where the lock is held.
    pub fn deref<'a, R>(&mut self, resources: &'a mut Resources<R>) -> (res: EcsResult<&'a R>)
        requires
            old(resources).wf(),
        ensures
            final(self).key() == old(self).key(),
            final(resources).wf(),
            final(resources)@ == old(resources)@,
            res is Ok <==> old(resources)@.contains_key(old(self).key().0) && (old(self).locked()
                || Resources::<R>::lockable(old(resources).locks(), old(self).key(), true)),
            res matches Ok(resource) ==> *resource == old(resources)@[old(self).key().0],
            res matches Err(e) ==> e == Resources::<R>::lock_refusal(
                old(resources).locks(),
                old(self).key(),
                true,
            ),
            final(self).locked() == (old(self).locked() || res is Ok),
            final(resources).locks() == (if !old(self).locked() && res is Ok {
                Resources::<R>::locked(old(resources).locks(), old(self).key(), true)
            } else {
                old(resources).locks()
            }),
    {
        match self.lock(resources) {
            Ok(()) => resources.get(self.key),
            Err(e) => Err(e),
        }
    }

    /// The resource, for writing. The first use takes a write lock on it,
    /// which fails with `NotFound` where no such resource was inserted and
    /// with `StorageLocked` where the lock is held.
    pub fn deref_mut<'a, R>(&mut self, resources: &'a mut Resources<R>) -> (res: EcsResult<
        &'a mut R,
    >)
        requires
            old(resources).wf(),
        ensures
            final(self).key() == old(self).key(),
            final(resources).wf(),
            res is Ok <==> old(resources)@.contains_key(old(self).key().0) && (old(self).locked()
                || Resources::<R>::lockable(old(resources).locks(), old(self).key(), true)),
            res matches Ok(resource) ==> *resource == old(resources)@[old(self).key().0],
            res matches Ok(resource) ==> final(resources)@ == old(resources)@.insert(
                old(self).key().0,
                *final(resource),
            ),
            res is Err ==> final(resources)@ == old(resources)@,
            res matches Err(e) ==> e == Resources::<R>::lock_refusal(
                old(resources).locks(),
                old(self).key(),
                true,
            ),
            final(self).locked() == (old(self).locked() || res is Ok),
            final(resources).locks() == (if !old(self).locked() && res is Ok {
                Resources::<R>::locked(old(resources).locks(), old(self).key(), true)
            } else {
                old(resources).locks()
            }),
    {
        match self.lock(resources) {
            Ok(()) => resources.get_mut(self.key),
            Err(e) => Err(e),
        }
    }

    /// Ends the handle's use: gives up the write lock, if the handle took
    /// it.
    pub fn release<R>(&mut self, resources: &mut Resources<R>)
        requires
            old(resources).wf(),
            old(self).locked() ==> unlock_step(
                old(resources).locks(),
                (old(self).key().0, true),
            ) is Some,
        ensures
            final(self).key() == old(self).key(),
            !final(self).locked(),
            final(resources).wf(),
            final(resources)@ == old(resources)@,
            final(resources).locks() == (if old(self).locked() {
                unlock_step(old(resources).locks(), (old(self).key().0, true))->0
            } else {
                old(resources).locks()
            }),
    {
        if self.locked {
            resources.force_release_write(self.key);
            self.locked = false;
        }
    }
}

} // verus!
