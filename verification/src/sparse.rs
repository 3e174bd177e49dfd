//! A map from integer ids to values that keeps its values densely packed.
//!
//! Each value lives in a slot of a dense vector. A second vector, aligned
//! with the first, records which id owns each slot, and an index maps every
//! id back to its slot. Removal moves the last slot into the vacated one, so
//! slots stay contiguous at the price of slot stability.
use vstd::prelude::*;
use crate::dashmap_api::{
    index_contains, index_entries, index_get, index_insert, index_new, index_remove, IndexMap,
};

verus! {

/// A map from ids to values with densely packed values and an index in
/// both directions.
pub struct SparseSet<T> {
    map: IndexMap,
    reverse: Vec<usize>,
    dense: Vec<T>,
}

impl<T> SparseSet<T> {
    /// The index: which slot each id owns.
    pub closed spec fn slots(&self) -> Map<usize, usize> {
        index_entries(self.map)
    }

    /// The reverse index: which id owns each slot.
    pub closed spec fn ids(&self) -> Seq<usize> {
        self.reverse@
    }

    /// The values, by slot.
    pub closed spec fn values(&self) -> Seq<T> {
        self.dense@
    }

    /// The two indices are inverse to each other.
    pub open spec fn indices_agree(slots: Map<usize, usize>, ids: Seq<usize>) -> bool {
        &&& forall|id: usize|
            (#[trigger] slots.contains_key(id)) ==> slots[id] < ids.len() && ids[slots[id] as int]
                == id
        &&& forall|i: int|
            0 <= i < ids.len() ==> slots.contains_key(#[trigger] ids[i]) && slots[ids[i]] == i
    }

    /// The two indices are inverse to each other and cover exactly the slots
    /// of the value vector.
    pub open spec fn wf(&self) -> bool {
        &&& self.values().len() == self.ids().len()
        &&& Self::indices_agree(self.slots(), self.ids())
    }

    /// What the set holds: the value of each id that is present.
    pub open spec fn view(&self) -> Map<usize, T> {
        Map::new(
            |id: usize| self.slots().contains_key(id),
            |id: usize| self.values()[self.slots()[id] as int],
        )
    }

    /// The slot order that results from removing the id in slot `slot`: the
    /// last id takes its place.
    pub open spec fn ids_without(ids: Seq<usize>, slot: int) -> Seq<usize> {
        ids.update(slot, ids.last()).drop_last()
    }

    /// The ids that are present are exactly those of the reverse index, each
    /// once: the index, the reverse index and the values have one length.
    pub proof fn lemma_density(&self)
        requires
            self.wf(),
        ensures
            self.ids().no_duplicates(),
            self@.dom() == self.ids().to_set(),
            self@.dom().finite(),
            self.slots().dom() == self@.dom(),
            self.slots().dom().len() == self.ids().len(),
            self.values().len() == self.ids().len(),
            self.ids().len() == 0 <==> self@.dom() == Set::<usize>::empty(),
            forall|id: usize|
                (#[trigger] self.slots().contains_key(id)) ==> self.slots()[id] < self.ids().len()
                    && self.ids()[self.slots()[id] as int] == id,
    {
        let ids = self.ids();
        assert(self@.dom() =~= ids.to_set()) by {
            assert forall|id: usize| self@.dom().contains(id) implies ids.to_set().contains(
                id,
            ) by {
                assert(self.slots().contains_key(id));
                assert(ids[self.slots()[id] as int] == id);
            }
            assert forall|id: usize| ids.to_set().contains(id) implies self@.dom().contains(
                id,
            ) by {
                let i = choose|i: int| 0 <= i < ids.len() && ids[i] == id;
                assert(self.slots().contains_key(ids[i]));
            }
        }
        assert(self.slots().dom() =~= self@.dom());
        ids.unique_seq_to_set();
        if ids.len() == 0 {
            assert(self@.dom() =~= Set::<usize>::empty());
        } else {
            assert(ids.to_set().contains(ids[0]));
        }
    }

    /// A set whose value in slot `slot` was replaced, with both indices left
    /// alone, holds the new value under the id that owns the slot, and
    /// everything else as before.
    pub proof fn lemma_value_replaced(before: Self, after: Self, slot: int)
        requires
            before.wf(),
            0 <= slot < before.ids().len(),
            after.ids() == before.ids(),
            after.slots() == before.slots(),
            after.values() == before.values().update(slot, after.values()[slot]),
        ensures
            after.wf(),
            after@ == before@.insert(before.ids()[slot], after.values()[slot]),
    {
        let id = before.ids()[slot];
        assert(before.slots().contains_key(id));
        assert forall|k: usize| after@.contains_key(k) implies #[trigger] after@[k] == before@.insert(
            id,
            after.values()[slot],
        )[k] by {
            assert(before.slots().contains_key(k));
            if k != id {
                assert(before.slots()[k] != slot);
            }
        }
        assert(after@ =~= before@.insert(id, after.values()[slot]));
    }

    /// Inserting a value under an id that is absent and removing the id
    /// again leaves the set as it was: the same values under the same ids,
    /// in the same slots.
    pub proof fn lemma_insert_then_remove(start: Self, grown: Self, back: Self, id: usize, value: T)
        requires
            start.wf(),
            !start@.contains_key(id),
            grown.wf(),
            grown@ == start@.insert(id, value),
            grown.ids() == start.ids().push(id),
            back.wf(),
            back@ == grown@.remove(id),
            back.ids() == Self::ids_without(grown.ids(), grown.slots()[id] as int),
        ensures
            back@ == start@,
            back.ids() == start.ids(),
            back.slots() == start.slots(),
            back.values() == start.values(),
    {
        let last = start.ids().len() as int;
        assert(grown.ids()[last] == id);
        assert(grown.slots().contains_key(grown.ids()[last]));
        assert(grown.slots()[id] == last);
        assert(back.ids() =~= start.ids());
        assert(back@ =~= start@);
        assert(back.slots() =~= start.slots()) by {
            assert forall|k: usize| back.slots().contains_key(k) == start.slots().contains_key(
                k,
            ) by {
                assert(back@.contains_key(k) == start@.contains_key(k));
            }
            assert forall|k: usize| #[trigger] back.slots().contains_key(k) implies back.slots()[k]
                == start.slots()[k] by {
                assert(start.slots().contains_key(k));
                let i = back.slots()[k] as int;
                let j = start.slots()[k] as int;
                assert(back.ids()[i] == k);
                assert(start.ids()[j] == k);
                assert(back.slots().contains_key(back.ids()[j]));
            }
        }
        assert(back.values() =~= start.values()) by {
            assert(back.values().len() == start.values().len());
            assert forall|i: int| 0 <= i < back.values().len() implies back.values()[i]
                == start.values()[i] by {
                let k = back.ids()[i];
                assert(back.slots().contains_key(k));
                assert(start.slots().contains_key(start.ids()[i]));
                assert(back@[k] == start@[k]);
            }
        }
    }

    pub fn new() -> (set: Self)
        ensures
            set.wf(),
            set@ == Map::<usize, T>::empty(),
            set.ids().len() == 0,
    {
        let set = SparseSet { map: index_new(), reverse: Vec::new(), dense: Vec::new() };
        assert(set@ =~= Map::<usize, T>::empty());
        set
    }

    /// The number of ids present.
    pub fn len(&self) -> (n: usize)
        requires
            self.wf(),
        ensures
            n == self.ids().len(),
    {
        self.reverse.len()
    }

    /// The slot that `id` owns, if it is present.
    pub fn slot_of(&self, id: usize) -> (slot: Option<usize>)
        requires
            self.wf(),
        ensures
            slot is Some <==> self@.contains_key(id),
            slot matches Some(s) ==> s < self.ids().len() && self.ids()[s as int] == id
                && self.slots()[id] == s && self@[id] == self.values()[s as int],
    {
        let slot = index_get(&self.map, id);
        assert(slot is Some ==> self.slots().contains_key(id));
        slot
    }

    pub fn contains(&self, id: usize) -> (present: bool)
        requires
            self.wf(),
        ensures
            present == self@.contains_key(id),
    {
        index_contains(&self.map, id)
    }

    /// The value of `id`, if it is present.
    pub fn get(&self, id: usize) -> (value: Option<&T>)
        requires
            self.wf(),
        ensures
            value is Some <==> self@.contains_key(id),
            value matches Some(v) ==> *v == self@[id],
    {
        match self.slot_of(id) {
            Some(slot) => Some(&self.dense[slot]),
            None => None,
        }
    }

    /// The id that owns slot `slot`.
    pub fn id_at(&self, slot: usize) -> (id: usize)
        requires
            self.wf(),
            slot < self.ids().len(),
        ensures
            id == self.ids()[slot as int],
            self@.contains_key(id),
    {
        self.reverse[slot]
    }

    /// The value in slot `slot`.
    pub fn value_at(&self, slot: usize) -> (value: &T)
        requires
            self.wf(),
            slot < self.ids().len(),
        ensures
            *value == self.values()[slot as int],
            *value == self@[self.ids()[slot as int]],
    {
        &self.dense[slot]
    }

    /// Mutable access to the value in slot `slot`. Neither index changes.
    pub fn value_at_mut(&mut self, slot: usize) -> (value: &mut T)
        requires
            old(self).wf(),
            slot < old(self).ids().len(),
        ensures
            *value == old(self).values()[slot as int],
            final(self).wf(),
            final(self).ids() == old(self).ids(),
            final(self).slots() == old(self).slots(),
            final(self).values() == old(self).values().update(slot as int, *final(value)),
            final(self)@ == old(self)@.insert(old(self).ids()[slot as int], *final(value)),
    {
        proof {
            self.lemma_slots_differ(slot as int);
        }
        &mut self.dense[slot]
    }

    /// No id but its owner maps to a slot.
    pub proof fn lemma_slots_differ(&self, slot: int)
        requires
            self.wf(),
            0 <= slot < self.ids().len(),
        ensures
            self.slots().contains_key(self.ids()[slot]),
            self.slots()[self.ids()[slot]] == slot,
            forall|id: usize|
                (#[trigger] self.slots().contains_key(id)) && id != self.ids()[slot]
                    ==> self.slots()[id] != slot,
    {
    }

    /// Stores `value` under `id`. A new id takes the next free slot; an id
    /// that is already present keeps its slot and hands back its old value.
    pub fn insert(&mut self, id: usize, value: T) -> (previous: Option<T>)
        requires
            old(self).wf(),
        ensures
            final(self).wf(),
            final(self)@ == old(self)@.insert(id, value),
            previous == (if old(self)@.contains_key(id) {
                Some(old(self)@[id])
            } else {
                None
            }),
            final(self).ids() == (if old(self)@.contains_key(id) {
                old(self).ids()
            } else {
                old(self).ids().push(id)
            }),
    {
        match self.slot_of(id) {
            Some(slot) => {
                let mut held = value;
                core::mem::swap(&mut self.dense[slot], &mut held);
                assert(final(self)@ =~= old(self)@.insert(id, value));
                Some(held)
            },
            None => {
                let slot = self.dense.len();
                self.dense.push(value);
                self.reverse.push(id);
                index_insert(&mut self.map, id, slot);
                assert(self@ =~= old(self)@.insert(id, value));
                None
            },
        }
    }

    /// Removes `id` and hands back its value. The last slot moves into the
    /// vacated one, and the index of the id that owned it is rewritten.
    pub fn remove(&mut self, id: usize) -> (removed: Option<T>)
        requires
            old(self).wf(),
        ensures
            final(self).wf(),
            final(self)@ == old(self)@.remove(id),
            removed == (if old(self)@.contains_key(id) {
                Some(old(self)@[id])
            } else {
                None
            }),
            final(self).ids() == (if old(self)@.contains_key(id) {
                Self::ids_without(old(self).ids(), old(self).slots()[id] as int)
            } else {
                old(self).ids()
            }),
            !old(self)@.contains_key(id) ==> final(self)@ == old(self)@ && final(self).slots()
                == old(self).slots() && final(self).values() == old(self).values(),
    {
        match index_remove(&mut self.map, id) {
            None => {
                assert(self.slots() =~= old(self).slots());
                assert(self@ =~= old(self)@.remove(id));
                assert(self@ =~= old(self)@);
                None
            },
            Some(slot) => {
                assert(old(self).slots().contains_key(id));
                let last = self.dense.len() - 1;
                let value = self.dense.swap_remove(slot);
                if slot != last {
                    let moved = self.reverse[last];
                    index_insert(&mut self.map, moved, slot);
                }
                self.reverse.swap_remove(slot);
                assert(self@ =~= old(self)@.remove(id));
                Some(value)
            },
        }
    }
}

} // verus!
