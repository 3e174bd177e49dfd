use vstd::prelude::*;
use crate::bitcount::count_set;
use crate::bitvec_api::{bits_get, bits_len, bits_new, bits_of, bits_push, bits_set, Bits};

verus! {

/// The identity of an entity: a dense index into the registry's bitset. Ids
/// are not versioned, so a freed id may be handed out again.
#[derive(Debug, Copy, Clone, PartialEq, Eq, Hash, Structural)]
pub struct EntityId(pub usize);

/// The registry of entity ids: an id is live iff its bit is set.
pub struct Entities {
    indices: Bits,
}

/// Whether `ids` lists, in ascending order, exactly the ids below `upto`
/// whose bit is set.
pub open spec fn lists_live(ids: Seq<EntityId>, bits: Seq<bool>, upto: int) -> bool {
    &&& forall|i: int, j: int| 0 <= i < j < ids.len() ==> ids[i].0 < ids[j].0
    &&& forall|i: int| 0 <= i < ids.len() ==> ids[i].0 < upto && ids[i].0 < bits.len() && bits[ids[i].0 as int]
    &&& forall|id: int|
        0 <= id < upto && id < bits.len() && bits[id] ==> exists|i: int|
            0 <= i < ids.len() && (#[trigger] ids[i]).0 == id
}

impl Entities {
    /// The bitset: one bit per id that was ever handed out.
    pub closed spec fn bits(&self) -> Seq<bool> {
        bits_of(self.indices)
    }

    /// Whether `id` is live.
    pub open spec fn is_live(&self, id: EntityId) -> bool {
        id.0 < self.bits().len() && self.bits()[id.0 as int]
    }

    /// The live ids.
    pub open spec fn view(&self) -> Set<usize> {
        Set::new(|id: usize| id < self.bits().len() && self.bits()[id as int])
    }

    /// Whether the registry can hand out one more id: a freed id is there to
    /// be taken again, or the bitset can still grow.
    pub open spec fn has_room(&self) -> bool {
        self.bits().len() < usize::MAX / 8 || exists|i: int|
            0 <= i < self.bits().len() && !#[trigger] self.bits()[i]
    }

    pub fn new() -> (entities: Entities)
        ensures
            entities@ == Set::<usize>::empty(),
            entities.bits().len() == 0,
    {
        let entities = Entities { indices: bits_new() };
        assert(entities@ =~= Set::<usize>::empty());
        entities
    }

    /// The lowest id that is not live, if there is one within the bitset.
    fn first_gap(&self) -> (gap: Option<usize>)
        ensures
            gap matches Some(g) ==> g < self.bits().len() && !self.bits()[g as int],
            gap matches Some(g) ==> forall|j: int| 0 <= j < g ==> self.bits()[j],
            gap is None ==> forall|j: int| 0 <= j < self.bits().len() ==> self.bits()[j],
    {
        let len = bits_len(&self.indices);
        let mut i: usize = 0;
        while i < len
            invariant
                i <= len,
                len == self.bits().len(),
                forall|j: int| 0 <= j < i ==> self.bits()[j],
            decreases len - i,
        {
            if !bits_get(&self.indices, i) {
                return Some(i);
            }
            i = i + 1;
        }
        None
    }

    /// Whether the registry can hand out one more id.
    pub fn can_allocate(&self) -> (room: bool)
        ensures
            room == self.has_room(),
    {
        if bits_len(&self.indices) < usize::MAX / 8 {
            return true;
        }
        match self.first_gap() {
            Some(gap) => {
                assert(!self.bits()[gap as int]);
                true
            },
            None => false,
        }
    }

    /// Hands out the lowest id that is not live and makes it live. The bitset
    /// grows by one bit where every id in it is live.
    pub fn allocate(&mut self) -> (id: EntityId)
        requires
            old(self).has_room(),
        ensures
            !old(self).is_live(id),
            forall|lower: usize| lower < id.0 ==> old(self).is_live(EntityId(lower)),
            final(self)@ == old(self)@.insert(id.0),
            final(self).bits() == (if id.0 < old(self).bits().len() {
                old(self).bits().update(id.0 as int, true)
            } else {
                old(self).bits().push(true)
            }),
    {
        let id = match self.first_gap() {
            Some(gap) => {
                bits_set(&mut self.indices, gap, true);
                gap
            },
            None => {
                let len = bits_len(&self.indices);
                bits_push(&mut self.indices, true);
                len
            },
        };
        assert(self@ =~= old(self)@.insert(id));
        EntityId(id)
    }

    /// Makes `entity` not live. Where it is not live, nothing changes.
    pub fn free(&mut self, entity: EntityId)
        ensures
            final(self)@ == old(self)@.remove(entity.0),
            final(self).bits() == (if entity.0 < old(self).bits().len() {
                old(self).bits().update(entity.0 as int, false)
            } else {
                old(self).bits()
            }),
            !old(self).is_live(entity) ==> final(self).bits() == old(self).bits(),
    {
        if entity.0 < bits_len(&self.indices) {
            bits_set(&mut self.indices, entity.0, false);
        }
        assert(self@ =~= old(self)@.remove(entity.0));
        assert(!old(self).is_live(entity) ==> self.bits() =~= old(self).bits());
    }

    /// Makes every id of `ids` not live.
    pub fn free_many(&mut self, ids: &Vec<EntityId>)
        ensures
            final(self)@ == old(self)@.difference(Set::new(|id: usize| ids@.contains(EntityId(id)))),
            final(self).bits().len() == old(self).bits().len(),
            forall|id: usize|
                id < old(self).bits().len() ==> #[trigger] final(self).bits()[id as int] == (old(
                    self,
                ).bits()[id as int] && !ids@.contains(EntityId(id))),
    {
        let mut i: usize = 0;
        while i < ids.len()
            invariant
                i <= ids.len(),
                self.bits().len() == old(self).bits().len(),
                self@ == old(self)@.difference(
                    Set::new(|id: usize| ids@.subrange(0, i as int).contains(EntityId(id))),
                ),
            decreases ids.len() - i,
        {
            let ghost before = self@;
            self.free(ids[i]);
            proof {
                let done = ids@.subrange(0, i as int);
                let next = ids@.subrange(0, i + 1);
                assert forall|id: usize| next.contains(EntityId(id)) <==> (done.contains(
                    EntityId(id),
                ) || id == ids[i as int].0) by {
                    if done.contains(EntityId(id)) {
                        let j = choose|j: int| 0 <= j < done.len() && done[j] == EntityId(id);
                        assert(next[j] == EntityId(id));
                    }
                    if id == ids[i as int].0 {
                        assert(next[i as int] == EntityId(id));
                    }
                    if next.contains(EntityId(id)) {
                        let j = choose|j: int| 0 <= j < next.len() && next[j] == EntityId(id);
                        if j < i {
                            assert(done[j] == EntityId(id));
                        }
                    }
                }
                assert(self@ =~= old(self)@.difference(
                    Set::new(|id: usize| next.contains(EntityId(id))),
                ));
            }
            i = i + 1;
        }
        proof {
            assert(ids@.subrange(0, ids.len() as int) =~= ids@);
            assert forall|id: usize| id < old(self).bits().len() implies #[trigger] self.bits()[id as int]
                == (old(self).bits()[id as int] && !ids@.contains(EntityId(id))) by {
                assert(self@.contains(id) == (old(self)@.contains(id) && !ids@.contains(
                    EntityId(id),
                )));
            }
        }
    }

    /// Whether `entity` is live.
    pub fn contains(&self, entity: EntityId) -> (live: bool)
        ensures
            live == self.is_live(entity),
            live == self@.contains(entity.0),
    {
        entity.0 < bits_len(&self.indices) && bits_get(&self.indices, entity.0)
    }

    /// The live ids in ascending order.
    pub fn iter(&self) -> (ids: Vec<EntityId>)
        ensures
            lists_live(ids@, self.bits(), self.bits().len() as int),
    {
        let len = bits_len(&self.indices);
        let mut ids: Vec<EntityId> = Vec::new();
        let mut i: usize = 0;
        while i < len
            invariant
                i <= len,
                len == self.bits().len(),
                lists_live(ids@, self.bits(), i as int),
            decreases len - i,
        {
            if bits_get(&self.indices, i) {
                let ghost before = ids@;
                ids.push(EntityId(i));
                proof {
                    assert forall|id: int|
                        0 <= id < i + 1 && id < self.bits().len() && self.bits()[id] implies exists|
                        k: int,
                    |
                        0 <= k < ids@.len() && (#[trigger] ids@[k]).0 == id by {
                        if id < i {
                            let k = choose|k: int| 0 <= k < before.len() && (#[trigger] before[k]).0 == id;
                            assert(ids@[k].0 == id);
                        } else {
                            assert(ids@[before.len() as int].0 == id);
                        }
                    }
                }
            }
            i = i + 1;
        }
        ids
    }
}

impl Default for Entities {
    /// A registry without live ids.
    fn default() -> (entities: Self)
        ensures
            entities@ == Set::<usize>::empty(),
            entities.bits().len() == 0,
    {
        Entities::new()
    }
}

/// A cursor over the live ids of a registry, in ascending order.
pub struct EntityIter {
    pub iter_index: usize,
}

impl EntityIter {
    pub fn new() -> (cursor: Self)
        ensures
            cursor.iter_index == 0,
    {
        EntityIter { iter_index: 0 }
    }

    /// The live id that has exactly `iter_index` live ids below it, if there
    /// is one; the cursor then moves on by one.
    pub fn next(&mut self, entities: &Entities) -> (id: Option<EntityId>)
        ensures
            id matches Some(e) ==> entities.is_live(e) && count_set(entities.bits(), e.0 as int)
                == old(self).iter_index && final(self).iter_index == old(self).iter_index + 1,
            id is None ==> count_set(entities.bits(), entities.bits().len() as int) <= old(
                self,
            ).iter_index && final(self).iter_index == old(self).iter_index,
    {
        let len = bits_len(&entities.indices);
        let mut seen: usize = 0;
        let mut i: usize = 0;
        while i < len
            invariant
                i <= len,
                len == entities.bits().len(),
                seen == count_set(entities.bits(), i as int),
                seen <= self.iter_index,
                seen <= i,
                *self == *old(self),
            decreases len - i,
        {
            if bits_get(&entities.indices, i) {
                if seen == self.iter_index {
                    self.iter_index = self.iter_index + 1;
                    return Some(EntityId(i));
                }
                seen = seen + 1;
            }
            i = i + 1;
        }
        None
    }
}

} // verus!
