use vstd::prelude::*;
use crate::error::{EcsError, EcsResult};
use std::marker::PhantomData;

verus! {

/// Marks a guard that stands for exclusive access.
pub enum WriteLock {
    Exclusive,
}

/// Marks a guard that stands for shared access.
pub enum ReadLock {
    Shared,
}

/// The two kinds of access a guard can stand for.
pub trait LockKind {
    /// Whether the access is shared.
    spec fn spec_read_only() -> bool;

    /// Whether the access is shared.
    fn read_only() -> (r: bool)
        ensures
            r == Self::spec_read_only(),
    ;
}

impl LockKind for WriteLock {
    open spec fn spec_read_only() -> bool {
        false
    }

    fn read_only() -> (r: bool) {
        false
    }
}

impl LockKind for ReadLock {
    open spec fn spec_read_only() -> bool {
        true
    }

    fn read_only() -> (r: bool) {
        true
    }
}

/// Proof that a lock was taken in mode `K`. It is handed back to
/// [`PersistentLock::release`] to undo the acquisition.
pub struct LockGuard<K: LockKind> {
    _marker: PhantomData<K>,
}

/// A read/write lock that stays held until it is explicitly released.
///
/// The counter is `0` when the lock is free, `usize::MAX` while it is held
/// exclusively, and otherwise the number of shared holders.
pub struct PersistentLock {
    counter: usize,
}

impl PersistentLock {
    /// The raw lock word.
    pub closed spec fn counter(&self) -> usize {
        self.counter
    }

    /// The lock is held by nobody.
    pub open spec fn is_free(&self) -> bool {
        self.counter() == 0
    }

    /// The lock is held exclusively.
    pub open spec fn is_exclusive(&self) -> bool {
        self.counter() == usize::MAX
    }

    /// The lock is held by at least one shared holder and no exclusive one.
    pub open spec fn is_shared(&self) -> bool {
        0 < self.counter() < usize::MAX
    }

    /// The lock word after a shared acquisition, if one is possible. It is
    /// not possible while the lock is held exclusively, nor when one more
    /// holder could not be told apart from an exclusive hold.
    pub open spec fn after_read(counter: usize) -> Option<usize> {
        if counter >= usize::MAX - 1 {
            None
        } else {
            Some((counter + 1) as usize)
        }
    }

    /// The lock word after an exclusive acquisition, if one is possible.
    pub open spec fn after_write(counter: usize) -> Option<usize> {
        if counter != 0 {
            None
        } else {
            Some(usize::MAX)
        }
    }

    pub fn new() -> (lock: Self)
        ensures
            lock.counter() == 0,
    {
        Self { counter: 0 }
    }

    /// The current lock word.
    pub fn state(&self) -> (counter: usize)
        ensures
            counter == self.counter(),
    {
        self.counter
    }

    /// Takes the lock in shared mode. This fails, and changes nothing, when
    /// the lock is held exclusively and when the count of shared holders
    /// cannot grow.
    pub fn read(&mut self) -> (res: EcsResult<LockGuard<ReadLock>>)
        ensures
            res is Ok <==> Self::after_read(old(self).counter()) is Some,
            res is Ok ==> Self::after_read(old(self).counter()) == Some(final(self).counter()),
            res is Ok ==> final(self).is_shared(),
            res is Err ==> final(self).counter() == old(self).counter(),
            res matches Err(e) ==> e == lock_error(old(self).counter(), false),
    {
        if self.counter == usize::MAX {
            return Err(EcsError::StorageLocked("write lock active, cannot acquire read lock"));
        }
        if self.counter == usize::MAX - 1 {
            return Err(EcsError::StorageLocked("too many readers, cannot acquire read lock"));
        }
        self.counter = self.counter + 1;
        Ok(LockGuard { _marker: PhantomData })
    }

    /// Gives up one shared hold.
    pub fn force_release_read(&mut self)
        requires
            old(self).is_shared(),
        ensures
            final(self).counter() == old(self).counter() - 1,
    {
        self.counter = self.counter - 1;
    }

    /// Takes the lock in exclusive mode. This fails, and changes nothing,
    /// exactly when the lock is held in either mode.
    pub fn write(&mut self) -> (res: EcsResult<LockGuard<WriteLock>>)
        ensures
            res is Ok <==> Self::after_write(old(self).counter()) is Some,
            res is Ok ==> Self::after_write(old(self).counter()) == Some(final(self).counter()),
            res is Ok ==> final(self).is_exclusive(),
            res is Err ==> final(self).counter() == old(self).counter(),
            res matches Err(e) ==> e == lock_error(old(self).counter(), true),
    {
        if self.counter != 0 {
            return Err(
                EcsError::StorageLocked("read or write lock active, cannot acquire write lock"),
            );
        }
        self.counter = usize::MAX;
        Ok(LockGuard { _marker: PhantomData })
    }

    /// Gives up the exclusive hold.
    pub fn force_release_write(&mut self)
        requires
            old(self).is_exclusive(),
        ensures
            final(self).counter() == 0,
    {
        self.counter = 0;
    }

    /// Undoes the acquisition that `guard` stands for: one shared hold for a
    /// read guard, the exclusive hold for a write guard.
    pub fn release<K: LockKind>(&mut self, guard: LockGuard<K>)
        requires
            K::spec_read_only() ==> old(self).is_shared(),
            !K::spec_read_only() ==> old(self).is_exclusive(),
        ensures
            K::spec_read_only() ==> final(self).counter() == old(self).counter() - 1,
            !K::spec_read_only() ==> final(self).counter() == 0,
    {
        if K::read_only() {
            self.force_release_read();
        } else {
            self.force_release_write();
        }
    }
}

/// The error of an acquisition in the given mode that fails on a lock with
/// the given word.
pub open spec fn lock_error(word: usize, exclusive: bool) -> EcsError {
    if exclusive {
        EcsError::StorageLocked("read or write lock active, cannot acquire write lock")
    } else if word == usize::MAX {
        EcsError::StorageLocked("write lock active, cannot acquire read lock")
    } else {
        EcsError::StorageLocked("too many readers, cannot acquire read lock")
    }
}

/// The lock word after an acquisition in the given mode, if one is
/// possible.
pub open spec fn acquired(word: usize, exclusive: bool) -> Option<usize> {
    if exclusive {
        PersistentLock::after_write(word)
    } else {
        PersistentLock::after_read(word)
    }
}

/// The lock word after a hold in the given mode is given up, if there is
/// such a hold.
pub open spec fn released(word: usize, exclusive: bool) -> Option<usize> {
    if exclusive {
        if word == usize::MAX {
            Some(0usize)
        } else {
            None
        }
    } else {
        if 0 < word < usize::MAX {
            Some((word - 1) as usize)
        } else {
            None
        }
    }
}

/// The lock words of the columns after one request, a type key with a mode,
/// is granted. A request for a column that does not exist takes no lock.
pub open spec fn lock_step(locks: Map<usize, usize>, request: (usize, bool)) -> Option<
    Map<usize, usize>,
> {
    if !locks.contains_key(request.0) {
        Some(locks)
    } else {
        match acquired(locks[request.0], request.1) {
            Some(word) => Some(locks.insert(request.0, word)),
            None => None,
        }
    }
}

/// The lock words of the columns after the hold of one request is given
/// up.
pub open spec fn unlock_step(locks: Map<usize, usize>, request: (usize, bool)) -> Option<
    Map<usize, usize>,
> {
    if !locks.contains_key(request.0) {
        Some(locks)
    } else {
        match released(locks[request.0], request.1) {
            Some(word) => Some(locks.insert(request.0, word)),
            None => None,
        }
    }
}

/// The lock words of the columns after the first `n` requests are granted
/// one after another, if all of them can be.
pub open spec fn lock_prefix(locks: Map<usize, usize>, requests: Seq<(usize, bool)>, n: nat) -> Option<
    Map<usize, usize>,
>
    decreases n,
{
    if n == 0 {
        Some(locks)
    } else {
        match lock_prefix(locks, requests, (n - 1) as nat) {
            Some(granted) => lock_step(granted, requests[n - 1]),
            None => None,
        }
    }
}

/// The lock words of the columns after the holds of the requests from
/// position `n` on are given up, last request first.
pub open spec fn unlock_suffix(locks: Map<usize, usize>, requests: Seq<(usize, bool)>, n: nat) -> Option<
    Map<usize, usize>,
>
    decreases requests.len() - n,
{
    if n >= requests.len() {
        Some(locks)
    } else {
        match unlock_suffix(locks, requests, n + 1) {
            Some(left) => unlock_step(left, requests[n as int]),
            None => None,
        }
    }
}

/// The error of the first of the first `n` requests that cannot be granted,
/// if there is one.
pub open spec fn lock_failure(locks: Map<usize, usize>, requests: Seq<(usize, bool)>, n: nat) -> Option<
    EcsError,
>
    decreases n,
{
    if n == 0 {
        None
    } else {
        match lock_failure(locks, requests, (n - 1) as nat) {
            Some(error) => Some(error),
            None => match lock_prefix(locks, requests, (n - 1) as nat) {
                Some(granted) => if lock_step(granted, requests[n - 1]) is None {
                    Some(lock_error(granted[requests[n - 1].0], requests[n - 1].1))
                } else {
                    None
                },
                None => None,
            },
        }
    }
}

/// The first request that cannot be granted stays the first, however many
/// requests follow.
pub proof fn lemma_lock_failure_stays(
    locks: Map<usize, usize>,
    requests: Seq<(usize, bool)>,
    from: nat,
    to: nat,
)
    requires
        from <= to,
        lock_failure(locks, requests, from) is Some,
    ensures
        lock_failure(locks, requests, to) == lock_failure(locks, requests, from),
    decreases to - from,
{
    if from < to {
        lemma_lock_failure_stays(locks, requests, from, (to - 1) as nat);
    }
}

/// Giving up the hold of a request that was just granted restores the lock
/// words.
pub proof fn lemma_unlock_undoes_lock(locks: Map<usize, usize>, request: (usize, bool))
    requires
        lock_step(locks, request) is Some,
    ensures
        unlock_step(lock_step(locks, request)->0, request) == Some(locks),
{
    if locks.contains_key(request.0) {
        let word = acquired(locks[request.0], request.1)->0;
        assert(locks.insert(request.0, word).insert(request.0, locks[request.0]) =~= locks);
    }
}

/// Once a request cannot be granted, no longer run of requests can.
pub proof fn lemma_lock_prefix_stays_none(
    locks: Map<usize, usize>,
    requests: Seq<(usize, bool)>,
    from: nat,
    to: nat,
)
    requires
        from <= to,
        lock_prefix(locks, requests, from) is None,
    ensures
        lock_prefix(locks, requests, to) is None,
    decreases to - from,
{
    if from < to {
        lemma_lock_prefix_stays_none(locks, requests, from, (to - 1) as nat);
    }
}

/// Where every hold can be given up, so can those of any later requests.
pub proof fn lemma_unlock_suffix_defined(
    locks: Map<usize, usize>,
    requests: Seq<(usize, bool)>,
    from: nat,
    to: nat,
)
    requires
        from <= to,
        unlock_suffix(locks, requests, from) is Some,
    ensures
        unlock_suffix(locks, requests, to) is Some,
    decreases to - from,
{
    if from < to && from < requests.len() {
        lemma_unlock_suffix_defined(locks, requests, from + 1, to);
    }
}

/// Giving up the holds of all requests, last first, after all of them were
/// granted restores the lock words.
pub proof fn lemma_release_undoes_acquire(
    locks: Map<usize, usize>,
    requests: Seq<(usize, bool)>,
    granted: Map<usize, usize>,
)
    requires
        lock_prefix(locks, requests, requests.len()) == Some(granted),
    ensures
        unlock_suffix(granted, requests, 0) == Some(locks),
{
    lemma_release_back_to(locks, requests, granted, 0);
}

/// Giving up the holds of the requests from `n` on leaves those of the
/// first `n`.
proof fn lemma_release_back_to(
    locks: Map<usize, usize>,
    requests: Seq<(usize, bool)>,
    granted: Map<usize, usize>,
    n: nat,
)
    requires
        n <= requests.len(),
        lock_prefix(locks, requests, requests.len()) == Some(granted),
    ensures
        unlock_suffix(granted, requests, n) == lock_prefix(locks, requests, n),
        lock_prefix(locks, requests, n) is Some,
    decreases requests.len() - n,
{
    if n < requests.len() {
        lemma_release_back_to(locks, requests, granted, n + 1);
        let earlier = lock_prefix(locks, requests, n);
        assert(earlier is Some);
        lemma_unlock_undoes_lock(earlier->0, requests[n as int]);
    }
}

} // verus!
