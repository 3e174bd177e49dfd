use vstd::prelude::*;
use crate::component::{Components, TypeKey};
use crate::bitcount::{count_set, lemma_rank};
use crate::entity::{lists_live, Entities, EntityId, EntityIter};
use crate::error::EcsResult;
use crate::util::{
    lemma_lock_failure_stays, lemma_lock_prefix_stays_none, lemma_unlock_suffix_defined,
    lemma_unlock_undoes_lock, lock_failure, lock_prefix, unlock_suffix,
};
use crate::filter::{owns, FilterParams};
use crate::scheduler::{BorrowedTypeDescriptor, SystemParamDescriptor};
use crate::smallvec_api::{
    access_get, access_insert, access_items, access_len, access_new, AccessList, ACCESS_LIST_LIMIT,
};

verus! {

/// Whether the requests come in ascending order of their type keys.
pub open spec fn in_key_order(requests: Seq<(usize, bool)>) -> bool {
    forall|i: int, j: int| 0 <= i < j < requests.len() ==> requests[i].0 <= requests[j].0
}

/// The requests with `request` put behind the last one whose type key is
/// not above its own.
pub open spec fn with_request(requests: Seq<(usize, bool)>, request: (usize, bool)) -> Seq<
    (usize, bool),
>
    decreases requests.len(),
{
    if requests.len() == 0 {
        seq![request]
    } else if requests.last().0 <= request.0 {
        requests.push(request)
    } else {
        with_request(requests.drop_last(), request).push(requests.last())
    }
}

/// Putting a request at the position that the scan from the end finds is
/// putting it behind the last request whose type key is not above its own.
proof fn lemma_with_request_at(requests: Seq<(usize, bool)>, request: (usize, bool), at: int)
    requires
        0 <= at <= requests.len(),
        forall|i: int| at <= i < requests.len() ==> requests[i].0 > request.0,
        at > 0 ==> requests[at - 1].0 <= request.0,
    ensures
        with_request(requests, request) == requests.insert(at, request),
    decreases requests.len() - at,
{
    if requests.len() == 0 {
        assert(requests.insert(at, request) =~= seq![request]);
    } else if at == requests.len() {
        assert(requests.insert(at, request) =~= requests.push(request));
    } else {
        lemma_with_request_at(requests.drop_last(), request, at);
        assert(requests.insert(at, request) =~= requests.drop_last().insert(at, request).push(
            requests.last(),
        ));
    }
}

/// Requests in key order stay in key order when one more is put in.
pub proof fn lemma_with_request_ordered(requests: Seq<(usize, bool)>, request: (usize, bool))
    requires
        in_key_order(requests),
    ensures
        in_key_order(with_request(requests, request)),
        with_request(requests, request).len() == requests.len() + 1,
    decreases requests.len(),
{
    if requests.len() > 0 && requests.last().0 > request.0 {
        let rest = requests.drop_last();
        lemma_with_request_ordered(rest, request);
        lemma_with_request_members(rest, request);
        let sorted = with_request(rest, request);
        let all = sorted.push(requests.last());
        assert forall|i: int, j: int| 0 <= i < j < all.len() implies all[i].0 <= all[j].0 by {
            if j == sorted.len() {
                if sorted[i] != request {
                    let k = choose|k: int| 0 <= k < rest.len() && rest[k] == sorted[i];
                    assert(requests[k].0 <= requests[requests.len() - 1].0);
                }
            }
        }
    }
}

/// Every request of the longer list is the new one or one of the old.
proof fn lemma_with_request_members(requests: Seq<(usize, bool)>, request: (usize, bool))
    ensures
        forall|i: int|
            0 <= i < with_request(requests, request).len() ==> #[trigger] with_request(
                requests,
                request,
            )[i] == request || exists|k: int|
                0 <= k < requests.len() && requests[k] == with_request(requests, request)[i],
    decreases requests.len(),
{
    let all = with_request(requests, request);
    if requests.len() == 0 {
    } else if requests.last().0 <= request.0 {
        assert forall|i: int| 0 <= i < all.len() implies #[trigger] all[i] == request || exists|
            k: int,
        |
            0 <= k < requests.len() && requests[k] == all[i] by {
            if i < requests.len() {
                assert(requests[i] == all[i]);
            }
        }
    } else {
        let rest = requests.drop_last();
        lemma_with_request_members(rest, request);
        let sorted = with_request(rest, request);
        assert forall|i: int| 0 <= i < all.len() implies #[trigger] all[i] == request || exists|
            k: int,
        |
            0 <= k < requests.len() && requests[k] == all[i] by {
            if i < sorted.len() {
                assert(all[i] == sorted[i]);
                if sorted[i] != request {
                    let k = choose|k: int| 0 <= k < rest.len() && rest[k] == sorted[i];
                    assert(requests[k] == all[i]);
                }
            } else {
                assert(requests[requests.len() - 1] == all[i]);
            }
        }
    }
}

/// Whether `entity` owns a component of every requested type.
pub open spec fn owns_all<T>(
    view: Map<usize, Map<usize, T>>,
    requests: Seq<(usize, bool)>,
    entity: EntityId,
) -> bool {
    forall|i: int|
        0 <= i < requests.len() ==> owns(view, TypeKey((#[trigger] requests[i]).0), entity)
}

/// The components that a query asks for, each for shared or for exclusive
/// access, kept in ascending order of their type keys. A query without
/// requests yields the entities themselves.
pub struct QueryParams {
    requests: AccessList,
}

impl QueryParams {
    /// The requests: pairs of a type key and whether the access is
    /// exclusive.
    pub closed spec fn requests(&self) -> Seq<(usize, bool)> {
        access_items(self.requests)
    }

    pub open spec fn wf(&self) -> bool {
        &&& in_key_order(self.requests())
        &&& self.requests().len() <= ACCESS_LIST_LIMIT
    }

    /// No requests.
    pub fn new() -> (params: Self)
        ensures
            params.wf(),
            params.requests().len() == 0,
    {
        QueryParams { requests: access_new() }
    }

    /// These requests and one more.
    pub fn with(self, request: BorrowedTypeDescriptor) -> (params: Self)
        requires
            self.wf(),
            self.requests().len() < ACCESS_LIST_LIMIT,
        ensures
            params.wf(),
            params.requests() == with_request(
                self.requests(),
                (request.type_id.0, request.exclusive),
            ),
    {
        let mut params = self;
        let mut at = access_len(&params.requests);
        while at > 0 && access_get(&params.requests, at - 1).0 > request.type_id.0
            invariant
                at <= params.requests().len(),
                params == self,
                forall|i: int|
                    at <= i < params.requests().len() ==> params.requests()[i].0
                        > request.type_id.0,
            decreases at,
        {
            at = at - 1;
        }
        proof {
            lemma_with_request_at(
                self.requests(),
                (request.type_id.0, request.exclusive),
                at as int,
            );
            lemma_with_request_ordered(self.requests(), (request.type_id.0, request.exclusive));
        }
        access_insert(&mut params.requests, at, (request.type_id.0, request.exclusive));
        params
    }

    /// The number of requests.
    pub fn len(&self) -> (n: usize)
        ensures
            n == self.requests().len(),
    {
        access_len(&self.requests)
    }

    /// The request at `index`.
    pub fn get(&self, index: usize) -> (request: BorrowedTypeDescriptor)
        requires
            index < self.requests().len(),
        ensures
            request.type_id.0 == self.requests()[index as int].0,
            request.exclusive == self.requests()[index as int].1,
    {
        let item = access_get(&self.requests, index);
        BorrowedTypeDescriptor { exclusive: item.1, type_id: TypeKey(item.0) }
    }

    /// Whether any request is for exclusive access.
    pub fn is_exclusive(&self) -> (exclusive: bool)
        ensures
            exclusive == exists|i: int|
                0 <= i < self.requests().len() && (#[trigger] self.requests()[i]).1,
    {
        let n = access_len(&self.requests);
        let mut i: usize = 0;
        while i < n
            invariant
                i <= n,
                n == self.requests().len(),
                forall|k: int| 0 <= k < i ==> !(#[trigger] self.requests()[k]).1,
            decreases n - i,
        {
            if access_get(&self.requests, i).1 {
                return true;
            }
            i = i + 1;
        }
        false
    }

    /// What the query means to the scheduler: its requests.
    pub fn descriptor(&self) -> (param: SystemParamDescriptor)
        requires
            self.wf(),
        ensures
            param matches SystemParamDescriptor::Query(list) && access_items(list)
                == self.requests(),
    {
        let n = access_len(&self.requests);
        let mut deps = access_new();
        let mut i: usize = 0;
        while i < n
            invariant
                i <= n,
                n == self.requests().len(),
                n <= ACCESS_LIST_LIMIT,
                access_items(deps) == self.requests().subrange(0, i as int),
            decreases n - i,
        {
            let item = access_get(&self.requests, i);
            access_insert(&mut deps, i, item);
            proof {
                assert(access_items(deps) =~= self.requests().subrange(0, i + 1));
            }
            i = i + 1;
        }
        proof {
            assert(self.requests().subrange(0, n as int) =~= self.requests());
        }
        SystemParamDescriptor::Query(deps)
    }

    /// Ensures that the entity has the requested components.
    pub fn filter<T>(&self, components: &Components<T>, entity: EntityId) -> (pass: bool)
        requires
            components.wf(),
        ensures
            pass == owns_all(components@, self.requests(), entity),
    {
        let n = access_len(&self.requests);
        let mut i: usize = 0;
        while i < n
            invariant
                i <= n,
                n == self.requests().len(),
                components.wf(),
                forall|k: int|
                    0 <= k < i ==> owns(
                        components@,
                        TypeKey((#[trigger] self.requests()[k]).0),
                        entity,
                    ),
            decreases n - i,
        {
            let key = TypeKey(access_get(&self.requests, i).0);
            if !components.has_component(key, entity) {
                assert(!owns(components@, TypeKey(self.requests()[i as int].0), entity));
                return false;
            }
            i = i + 1;
        }
        true
    }

    /// Acquires the locks on the requested columns, in the order of the
    /// requests. Either every request is granted, or none is: where one
    /// cannot be granted, those granted before it are given up again, last
    /// first, and the call fails.
    pub fn get_locks<T>(&self, components: &mut Components<T>) -> (res: EcsResult<()>)
        requires
            old(components).wf(),
        ensures
            final(components).wf(),
            final(components)@ == old(components)@,
            res is Ok <==> lock_prefix(
                old(components).locks(),
                self.requests(),
                self.requests().len(),
            ) is Some,
            res is Ok ==> lock_prefix(
                old(components).locks(),
                self.requests(),
                self.requests().len(),
            ) == Some(final(components).locks()),
            res is Err ==> final(components).locks() == old(components).locks(),
            res matches Err(e) ==> lock_failure(
                old(components).locks(),
                self.requests(),
                self.requests().len(),
            ) == Some(e),
    {
        let ghost first = components.locks();
        let ghost requests = self.requests();
        let n = access_len(&self.requests);
        let mut i: usize = 0;
        while i < n
            invariant
                i <= n,
                n == self.requests().len(),
                requests == self.requests(),
                first == old(components).locks(),
                components.wf(),
                components@ == old(components)@,
                lock_prefix(first, requests, i as nat) == Some(components.locks()),
                lock_failure(first, requests, i as nat) is None,
            decreases n - i,
        {
            let item = access_get(&self.requests, i);
            match components.lock_column(TypeKey(item.0), item.1) {
                Ok(()) => {},
                Err(e) => {
                    proof {
                        assert(lock_prefix(first, requests, (i + 1) as nat) is None);
                        lemma_lock_prefix_stays_none(first, requests, (i + 1) as nat, n as nat);
                        assert(lock_failure(first, requests, (i + 1) as nat) == Some(e));
                        lemma_lock_failure_stays(first, requests, (i + 1) as nat, n as nat);
                    }
                    let mut j: usize = i;
                    while j > 0
                        invariant
                            j <= i,
                            i < n,
                            n == self.requests().len(),
                            requests == self.requests(),
                            components.wf(),
                            components@ == old(components)@,
                            first == old(components).locks(),
                            lock_prefix(first, requests, j as nat) == Some(components.locks()),
                            lock_failure(first, requests, n as nat) == Some(e),
                        decreases j,
                    {
                        let held = access_get(&self.requests, j - 1);
                        proof {
                            let earlier = lock_prefix(first, requests, (j - 1) as nat);
                            assert(earlier is Some);
                            lemma_unlock_undoes_lock(earlier->0, requests[j - 1]);
                        }
                        components.unlock_column(TypeKey(held.0), held.1);
                        j = j - 1;
                    }
                    return Err(e);
                },
            }
            i = i + 1;
        }
        Ok(())
    }

    /// Releases the locks that [`get_locks`](Self::get_locks) acquired, last
    /// request first.
    pub fn release_locks<T>(&self, components: &mut Components<T>)
        requires
            old(components).wf(),
            unlock_suffix(old(components).locks(), self.requests(), 0) is Some,
        ensures
            final(components).wf(),
            final(components)@ == old(components)@,
            unlock_suffix(old(components).locks(), self.requests(), 0) == Some(
                final(components).locks(),
            ),
    {
        let ghost first = components.locks();
        let ghost requests = self.requests();
        let n = access_len(&self.requests);
        let mut j: usize = n;
        proof {
            lemma_unlock_suffix_defined(first, requests, 0, n as nat);
        }
        while j > 0
            invariant
                j <= n,
                n == self.requests().len(),
                requests == self.requests(),
                first == old(components).locks(),
                components.wf(),
                components@ == old(components)@,
                unlock_suffix(first, requests, 0) is Some,
                unlock_suffix(first, requests, j as nat) == Some(components.locks()),
            decreases j,
        {
            let held = access_get(&self.requests, j - 1);
            proof {
                lemma_unlock_suffix_defined(first, requests, 0, (j - 1) as nat);
            }
            components.unlock_column(TypeKey(held.0), held.1);
            j = j - 1;
        }
    }
}

/// A filtered view over the entities of the world. It holds the locks of
/// the columns it asks for from its construction until it is released.
pub struct Query {
    params: QueryParams,
    filter: FilterParams,
}

impl Query {
    /// The components that the query asks for.
    pub closed spec fn params(&self) -> QueryParams {
        self.params
    }

    /// The filters that an entity must pass.
    pub closed spec fn filter(&self) -> FilterParams {
        self.filter
    }

    /// Whether the query yields `entity`, should it be live: whether the
    /// entity owns every requested component and passes every filter.
    pub open spec fn selects<T>(&self, view: Map<usize, Map<usize, T>>, entity: EntityId) -> bool {
        owns_all(view, self.params().requests(), entity) && self.filter().accepts(view, entity)
    }

    /// Creates the query and acquires the lock of every column that it asks
    /// for. Where a lock cannot be taken, the query is not created and no
    /// lock is held.
    pub fn new<T>(components: &mut Components<T>, params: QueryParams, filter: FilterParams) -> (res:
        EcsResult<Query>)
        requires
            old(components).wf(),
        ensures
            final(components).wf(),
            final(components)@ == old(components)@,
            res is Ok <==> lock_prefix(
                old(components).locks(),
                params.requests(),
                params.requests().len(),
            ) is Some,
            res is Ok ==> lock_prefix(
                old(components).locks(),
                params.requests(),
                params.requests().len(),
            ) == Some(final(components).locks()),
            res matches Ok(query) ==> query.params() == params && query.filter() == filter,
            res is Err ==> final(components).locks() == old(components).locks(),
            res matches Err(e) ==> lock_failure(
                old(components).locks(),
                params.requests(),
                params.requests().len(),
            ) == Some(e),
    {
        match params.get_locks(components) {
            Ok(()) => Ok(Query { params, filter }),
            Err(e) => Err(e),
        }
    }

    /// What the query means to the scheduler: its requests.
    pub fn descriptor(&self) -> (param: SystemParamDescriptor)
        requires
            self.params().wf(),
        ensures
            param matches SystemParamDescriptor::Query(list) && access_items(list)
                == self.params().requests(),
    {
        self.params.descriptor()
    }

    /// Whether the query yields `entity`, should it be live.
    pub fn matches<T>(&self, components: &Components<T>, entity: EntityId) -> (pass: bool)
        requires
            components.wf(),
        ensures
            pass == self.selects(components@, entity),
    {
        self.params.filter(components, entity) && self.filter.filter(components, entity)
    }

    /// The entities that the query yields: the live ones that own every
    /// requested component and pass every filter, in ascending order of
    /// their ids.
    pub fn iter<T>(&self, entities: &Entities, components: &Components<T>) -> (ids: Vec<EntityId>)
        requires
            components.wf(),
        ensures
            forall|i: int, j: int| 0 <= i < j < ids.len() ==> ids[i].0 < ids[j].0,
            forall|i: int|
                0 <= i < ids.len() ==> entities.is_live(#[trigger] ids[i]) && self.selects(
                    components@,
                    ids[i],
                ),
            forall|entity: EntityId|
                entities.is_live(entity) && self.selects(components@, entity) ==> ids@.contains(
                    entity,
                ),
    {
        let live = entities.iter();
        let mut ids: Vec<EntityId> = Vec::new();
        let mut k: usize = 0;
        while k < live.len()
            invariant
                k <= live.len(),
                components.wf(),
                lists_live(live@, entities.bits(), entities.bits().len() as int),
                forall|i: int, j: int| 0 <= i < j < ids.len() ==> ids[i].0 < ids[j].0,
                forall|i: int|
                    0 <= i < ids.len() ==> entities.is_live(#[trigger] ids[i]) && self.selects(
                        components@,
                        ids[i],
                    ),
                forall|i: int| 0 <= i < ids.len() && k < live.len() ==> (#[trigger] ids[i]).0 < live[k as int].0,
                forall|i: int|
                    0 <= i < k && self.selects(components@, #[trigger] live[i]) ==> ids@.contains(
                        live[i],
                    ),
            decreases live.len() - k,
        {
            let entity = live[k];
            if self.matches(components, entity) {
                let ghost before = ids@;
                ids.push(entity);
                proof {
                    assert(ids@[before.len() as int] == entity);
                    assert forall|i: int|
                        0 <= i < k + 1 && self.selects(
                            components@,
                            #[trigger] live[i],
                        ) implies ids@.contains(live[i]) by {
                        if i < k {
                            let at = choose|at: int| 0 <= at < before.len() && before[at] == live[i];
                            assert(ids@[at] == live[i]);
                        }
                    }
                }
            }
            k = k + 1;
        }
        proof {
            assert forall|entity: EntityId|
                entities.is_live(entity) && self.selects(components@, entity) implies ids@.contains(
                entity,
            ) by {
                let at = choose|at: int| 0 <= at < live@.len() && (#[trigger] live@[at]).0 == entity.0;
                assert(live@[at] == entity);
            }
        }
        ids
    }

    /// Ends the query and releases the locks that its construction
    /// acquired, last request first.
    pub fn release<T>(self, components: &mut Components<T>)
        requires
            old(components).wf(),
            unlock_suffix(old(components).locks(), self.params().requests(), 0) is Some,
        ensures
            final(components).wf(),
            final(components)@ == old(components)@,
            unlock_suffix(old(components).locks(), self.params().requests(), 0) == Some(
                final(components).locks(),
            ),
    {
        self.params.release_locks(components);
    }
}

/// A cursor over the entities that a query yields.
pub struct QueryIter {
    entities: EntityIter,
}

impl QueryIter {
    /// How many live entities the cursor has passed.
    pub closed spec fn passed(&self) -> usize {
        self.entities.iter_index
    }

    /// A cursor before the first entity.
    pub fn new() -> (cursor: Self)
        ensures
            cursor.passed() == 0,
    {
        QueryIter { entities: EntityIter::new() }
    }

    /// The next entity that the query yields: the live entity with the
    /// lowest id among those that the cursor has not passed and that the
    /// query selects. The cursor passes it and every live entity below it.
    pub fn next<T>(&mut self, query: &Query, entities: &Entities, components: &Components<T>) -> (id:
        Option<EntityId>)
        requires
            components.wf(),
        ensures
            id matches Some(e) ==> entities.is_live(e) && query.selects(components@, e)
                && old(self).passed() <= count_set(entities.bits(), e.0 as int)
                && final(self).passed() == count_set(entities.bits(), e.0 as int) + 1,
            forall|other: EntityId|
                entities.is_live(other) && old(self).passed() <= count_set(
                    entities.bits(),
                    other.0 as int,
                ) && (id matches Some(e) ==> other.0 < e.0) ==> !query.selects(components@, other),
            id is None ==> final(self).passed() == (if old(self).passed() < count_set(
                entities.bits(),
                entities.bits().len() as int,
            ) {
                count_set(entities.bits(), entities.bits().len() as int) as usize
            } else {
                old(self).passed()
            }),
    {
        let ghost bits = entities.bits();
        let ghost total = count_set(bits, bits.len() as int);
        loop
            invariant
                components.wf(),
                bits == entities.bits(),
                total == count_set(bits, bits.len() as int),
                old(self).passed() <= self.passed(),
                self.passed() <= total || self.passed() == old(self).passed(),
                forall|other: EntityId|
                    entities.is_live(other) && old(self).passed() <= count_set(
                        bits,
                        other.0 as int,
                    ) < self.passed() ==> !query.selects(components@, other),
            decreases total - self.passed(),
        {
            let ghost rank = self.entities.iter_index;
            match self.entities.next(entities) {
                None => {
                    proof {
                        assert forall|other: EntityId|
                            entities.is_live(other) && old(self).passed() <= count_set(
                                bits,
                                other.0 as int,
                            ) implies !query.selects(components@, other) by {
                            lemma_rank(bits, other.0 as int, other.0 as int);
                        }
                    }
                    return None;
                },
                Some(entity) => {
                    proof {
                        lemma_rank(bits, entity.0 as int, entity.0 as int);
                        assert forall|other: EntityId|
                            entities.is_live(other) && count_set(bits, other.0 as int)
                                == rank implies other == entity by {
                            lemma_rank(bits, other.0 as int, entity.0 as int);
                        }
                    }
                    if query.matches(components, entity) {
                        proof {
                            assert forall|other: EntityId|
                                entities.is_live(other) && old(self).passed() <= count_set(
                                    bits,
                                    other.0 as int,
                                ) && other.0 < entity.0 implies !query.selects(
                                components@,
                                other,
                            ) by {
                                lemma_rank(bits, other.0 as int, entity.0 as int);
                            }
                        }
                        return Some(entity);
                    }
                },
            }
        }
    }
}

} // verus!
