use vstd::prelude::*;
use crate::component::TypeKey;
use crate::scheduler::SystemParamDescriptor;
use crate::sparse::SparseSet;

verus! {

/// The position of an event in its bus: ids are handed out in ascending
/// order, one per write.
#[derive(Debug, Copy, Clone, PartialEq, Eq, Hash, Structural)]
pub struct EventId(pub usize);

/// Marks a user type as an event.
pub trait Event: Clone + Send + Sync + 'static {

}

/// An event that has not been read by all of its readers yet.
pub struct EventSlot<E> {
    /// Remaining readers that have not seen this event yet. Every read
    /// lowers the count by one, and the slot goes when it reaches zero.
    pub rem: usize,
    /// The event itself.
    pub event: E,
}

/// What a bus holds, as plain values.
pub struct BusState<E> {
    /// The number of readers subscribed.
    pub readers: usize,
    /// The id that the next write will get.
    pub next_id: usize,
    /// The unread events, by id.
    pub slots: Map<usize, EventSlot<E>>,
}

impl<E> BusState<E> {
    /// Every unread event was written before `next_id` and still has a
    /// reader to wait for.
    pub open spec fn slots_wf(slots: Map<usize, EventSlot<E>>, next_id: usize) -> bool {
        forall|id: usize|
            (#[trigger] slots.contains_key(id)) ==> id < next_id && slots[id].rem >= 1
    }

    pub open spec fn wf(self) -> bool {
        Self::slots_wf(self.slots, self.next_id)
    }

    /// The bus that a write creates where there is none: nobody reads it, and
    /// the event that was written took the id 0 with it.
    pub open spec fn made_by_writer() -> Self {
        BusState { readers: 0, next_id: 1, slots: Map::empty() }
    }

    /// The bus that a subscription creates where there is none.
    pub open spec fn made_by_reader() -> Self {
        BusState { readers: 1, next_id: 0, slots: Map::empty() }
    }

    /// The bus after a write of `event`: the event gets the next id and waits
    /// for every reader subscribed now. With no reader it is dropped.
    pub open spec fn write(self, event: E) -> Self {
        BusState {
            readers: self.readers,
            next_id: (self.next_id + 1) as usize,
            slots: if self.readers == 0 {
                self.slots
            } else {
                self.slots.insert(self.next_id, EventSlot { rem: self.readers, event })
            },
        }
    }

    /// The bus after one reader has read event `id`: the event's count drops
    /// by one, and the event goes with its last reader.
    pub open spec fn read(self, id: usize) -> Self {
        BusState {
            readers: self.readers,
            next_id: self.next_id,
            slots: if !self.slots.contains_key(id) {
                self.slots
            } else if self.slots[id].rem <= 1 {
                self.slots.remove(id)
            } else {
                self.slots.insert(
                    id,
                    EventSlot { rem: (self.slots[id].rem - 1) as usize, event: self.slots[id].event },
                )
            },
        }
    }

    /// The bus after `n` reads of event `id`.
    pub open spec fn read_times(self, id: usize, n: nat) -> Self
        decreases n,
    {
        if n == 0 {
            self
        } else {
            self.read(id).read_times(id, (n - 1) as nat)
        }
    }

    /// The bus after one more reader has subscribed.
    pub open spec fn subscribe(self) -> Self {
        BusState { readers: (self.readers + 1) as usize, next_id: self.next_id, slots: self.slots }
    }

    /// The bus after one reader has unsubscribed.
    pub open spec fn unsubscribe(self) -> Self {
        BusState { readers: (self.readers - 1) as usize, next_id: self.next_id, slots: self.slots }
    }

    /// How many events a reader whose cursor stands at `from` can read in a
    /// row: those with the ids `from`, `from + 1`, ... up to the first that is
    /// missing.
    pub open spec fn run(self, from: usize) -> nat
        decreases self.next_id - from,
    {
        if from < self.next_id && self.slots.contains_key(from) {
            1 + self.run((from + 1) as usize)
        } else {
            0
        }
    }

    /// The bus after a reader has read the `n` events from `from` on.
    pub open spec fn read_run(self, from: usize, n: nat) -> Self
        decreases n,
    {
        if n == 0 {
            self
        } else {
            self.read(from).read_run((from + 1) as usize, (n - 1) as nat)
        }
    }

    /// The bus after the events of `events` are written one after another.
    pub open spec fn write_all(self, events: Seq<E>) -> Self
        decreases events.len(),
    {
        if events.len() == 0 {
            self
        } else {
            self.write_all(events.drop_last()).write(events.last())
        }
    }

    /// Where every event from `from` up to the next id is unread, a reader
    /// at `from` can read all of them in a row.
    pub proof fn lemma_run_full(self, from: usize)
        requires
            from <= self.next_id,
            forall|id: usize| from <= id < self.next_id ==> #[trigger] self.slots.contains_key(id),
        ensures
            self.run(from) == self.next_id - from,
        decreases self.next_id - from,
    {
        if from < self.next_id {
            assert(self.slots.contains_key(from));
            self.lemma_run_full((from + 1) as usize);
        }
    }

    /// A reader that starts while it is subscribed observes every event
    /// written from then on, in the order of the writes, and none of those
    /// written before: its cursor starts at the next id, every event
    /// written before has a lower id, and the events written afterwards are
    /// there for it, one id after another from the cursor on, each waiting
    /// for as many readers as were subscribed.
    pub proof fn lemma_reader_observes_later_writes(self, events: Seq<E>)
        requires
            self.wf(),
            self.readers >= 1,
            self.next_id + events.len() <= usize::MAX,
        ensures
            forall|id: usize| #[trigger] self.slots.contains_key(id) ==> id < self.next_id,
            self.write_all(events).wf(),
            self.write_all(events).readers == self.readers,
            self.write_all(events).next_id == self.next_id + events.len(),
            forall|id: usize|
                id < self.next_id ==> (#[trigger] self.write_all(events).slots.contains_key(id))
                    == self.slots.contains_key(id),
            forall|id: usize|
                self.next_id <= id < self.next_id + events.len() ==> (#[trigger] self.write_all(
                    events,
                ).slots.contains_key(id)) && self.write_all(events).slots[id].event == events[id
                    - self.next_id] && self.write_all(events).slots[id].rem == self.readers,
            self.write_all(events).run(self.next_id) == events.len(),
        decreases events.len(),
    {
        let after = self.write_all(events);
        if events.len() == 0 {
            assert(after == self);
            self.lemma_run_full(self.next_id);
        } else {
            let rest = events.drop_last();
            let last = events.last();
            let before = self.write_all(rest);
            self.lemma_reader_observes_later_writes(rest);
            assert(after == before.write(last));
            assert(before.next_id == self.next_id + events.len() - 1);
            assert(after.slots == before.slots.insert(
                before.next_id,
                EventSlot { rem: before.readers, event: last },
            ));
            assert forall|id: usize|
                self.next_id <= id < self.next_id + events.len() implies (
            #[trigger] after.slots.contains_key(id)) && after.slots[id].event == events[id
                - self.next_id] && after.slots[id].rem == self.readers by {
                if id == before.next_id {
                    assert(events[id - self.next_id] == last);
                } else {
                    assert(before.slots.contains_key(id));
                    assert(rest[id - self.next_id] == events[id - self.next_id]);
                    assert(after.slots[id] == before.slots[id]);
                }
            }
            assert forall|id: usize| id < self.next_id implies (#[trigger] after.slots.contains_key(
                id,
            )) == self.slots.contains_key(id) by {
                assert(before.slots.contains_key(id) == self.slots.contains_key(id));
            }
            assert(BusState::slots_wf(after.slots, after.next_id)) by {
                assert forall|id: usize| (#[trigger] after.slots.contains_key(id)) implies id
                    < after.next_id && after.slots[id].rem >= 1 by {
                    if id != before.next_id {
                        assert(before.slots.contains_key(id));
                    }
                }
            }
            assert forall|id: usize| self.next_id <= id < after.next_id implies #[trigger] after.slots.contains_key(
                id,
            ) by {}
            after.lemma_run_full(self.next_id);
        }
    }

    /// Every read of an event lowers its count of remaining readers by one,
    /// and the event goes exactly with the read that brings the count to
    /// zero: after `n` reads of an event that waits for `rem` readers, it
    /// still waits for `rem - n` of them where `n < rem`, and is gone where
    /// `n == rem`.
    pub proof fn lemma_read_times(self, id: usize, n: nat)
        requires
            self.slots.contains_key(id),
            self.slots[id].rem >= 1,
            n <= self.slots[id].rem,
        ensures
            n < self.slots[id].rem ==> self.read_times(id, n).slots.contains_key(id)
                && self.read_times(id, n).slots[id].rem == self.slots[id].rem - n
                && self.read_times(id, n).slots[id].event == self.slots[id].event,
            n == self.slots[id].rem ==> !self.read_times(id, n).slots.contains_key(id),
            forall|other: usize|
                other != id ==> self.read_times(id, n).slots.contains_key(other)
                    == self.slots.contains_key(other),
        decreases n,
    {
        if n > 0 {
            let next = self.read(id);
            assert(self.read_times(id, n) == next.read_times(id, (n - 1) as nat));
            if self.slots[id].rem > 1 {
                next.lemma_read_times(id, (n - 1) as nat);
            } else {
                assert(n == 1);
                assert(next.read_times(id, 0) == next);
            }
            assert forall|other: usize| other != id implies self.read_times(
                id,
                n,
            ).slots.contains_key(other) == self.slots.contains_key(other) by {
                assert(next.slots.contains_key(other) == self.slots.contains_key(other));
            }
        } else {
            assert(self.read_times(id, 0) == self);
        }
    }

    /// An event written while no reader is subscribed is dropped: the write
    /// takes an id and leaves the unread events as they are.
    pub proof fn lemma_write_without_readers(self, event: E)
        requires
            self.readers == 0,
        ensures
            self.write(event).slots == self.slots,
            self.write(event).readers == 0,
            self.write(event).next_id == (self.next_id + 1) as usize,
    {
    }

    /// Reading an event that is not there changes nothing.
    pub proof fn lemma_read_missing(self, id: usize)
        requires
            !self.slots.contains_key(id),
        ensures
            self.read(id) == self,
            self.run(id) == 0,
    {
    }

    /// Two buses that agree on which events from `from` on are unread let a
    /// reader at `from` read equally many in a row.
    pub proof fn lemma_run_agree(self, other: Self, from: usize)
        requires
            self.next_id == other.next_id,
            forall|id: usize|
                id >= from ==> (#[trigger] self.slots.contains_key(id)) == other.slots.contains_key(
                    id,
                ),
        ensures
            self.run(from) == other.run(from),
        decreases self.next_id - from,
    {
        if from < self.next_id && self.slots.contains_key(from) {
            self.lemma_run_agree(other, (from + 1) as usize);
        }
    }

    /// Reading `n + 1` events in a row is reading `n` of them and then the
    /// next.
    pub proof fn lemma_read_run_next(self, from: usize, n: nat)
        requires
            from + n < usize::MAX,
        ensures
            self.read_run(from, n + 1) == self.read_run(from, n).read((from + n) as usize),
        decreases n,
    {
        reveal_with_fuel(BusState::read_run, 2);
        if n > 0 {
            self.read(from).lemma_read_run_next((from + 1) as usize, (n - 1) as nat);
            assert(((from + 1) as usize + (n - 1) as nat) as usize == (from + n) as usize);
        }
    }
}

/// The channel of one event type.
pub struct EventBus<E> {
    readers: usize,
    next_id: usize,
    events: SparseSet<EventSlot<E>>,
}

impl<E> EventBus<E> {
    /// The store of unread events.
    pub closed spec fn events(&self) -> SparseSet<EventSlot<E>> {
        self.events
    }

    pub closed spec fn view(&self) -> BusState<E> {
        BusState { readers: self.readers, next_id: self.next_id, slots: self.events@ }
    }

    pub closed spec fn wf(&self) -> bool {
        &&& self.events.wf()
        &&& self@.wf()
    }

    /// A bus without unread events.
    pub fn new(readers: usize, next_id: usize) -> (bus: Self)
        ensures
            bus.wf(),
            bus@ == (BusState::<E> { readers, next_id, slots: Map::empty() }),
    {
        EventBus { readers, next_id, events: SparseSet::new() }
    }

    /// Writes an event: it gets the next id and waits for every reader that
    /// is subscribed now. With no reader subscribed it is dropped at once.
    pub fn insert(&mut self, event: E) -> (id: EventId)
        requires
            old(self).wf(),
            old(self)@.next_id < usize::MAX,
        ensures
            final(self).wf(),
            id.0 == old(self)@.next_id,
            final(self)@ == old(self)@.write(event),
            old(self)@.readers == 0 ==> final(self)@.slots == old(self)@.slots,
    {
        let id = self.next_id;
        self.next_id = id + 1;
        if self.readers != 0 {
            self.events.insert(id, EventSlot { rem: self.readers, event });
        }
        EventId(id)
    }

    /// The number of readers subscribed.
    pub fn reader_count(&self) -> (n: usize)
        ensures
            n == self@.readers,
    {
        self.readers
    }

    /// The id that the next write will get.
    pub fn upcoming_id(&self) -> (id: usize)
        ensures
            id == self@.next_id,
    {
        self.next_id
    }

    /// The number of unread events.
    pub fn unread(&self) -> (n: usize)
        requires
            self.wf(),
        ensures
            n == self@.slots.dom().len(),
            self@.slots.dom().finite(),
    {
        proof {
            self.events.lemma_density();
        }
        self.events.len()
    }

    /// Whether event `id` is still unread by some reader.
    pub fn holds(&self, id: usize) -> (present: bool)
        requires
            self.wf(),
        ensures
            present == self@.slots.contains_key(id),
    {
        self.events.contains(id)
    }

    /// Subscribes one more reader.
    pub fn add_reader(&mut self)
        requires
            old(self).wf(),
            old(self)@.readers < usize::MAX,
        ensures
            final(self).wf(),
            final(self)@ == old(self)@.subscribe(),
    {
        self.readers = self.readers + 1;
    }

    /// Unsubscribes one reader.
    pub fn remove_reader(&mut self)
        requires
            old(self).wf(),
            old(self)@.readers > 0,
        ensures
            final(self).wf(),
            final(self)@ == old(self)@.unsubscribe(),
    {
        self.readers = self.readers - 1;
    }

    /// A sound bus holds a sound state.
    pub proof fn lemma_view_wf(&self)
        requires
            self.wf(),
        ensures
            self@.wf(),
    {
    }
}

impl<E: Clone> EventBus<E> {
    /// Reads event `id` on behalf of one reader: hands out a clone of it,
    /// lowers its count of remaining readers, and drops it with the last of
    /// them. Where there is no such event, nothing changes.
    pub fn get(&mut self, id: usize) -> (event: Option<E>)
        requires
            old(self).wf(),
        ensures
            final(self).wf(),
            event is Some <==> old(self)@.slots.contains_key(id),
            event matches Some(e) ==> cloned(old(self)@.slots[id].event, e),
            final(self)@ == old(self)@.read(id),
            event is None ==> final(self)@ == old(self)@,
    {
        match self.events.slot_of(id) {
            None => None,
            Some(slot) => {
                let rem = self.events.value_at(slot).rem;
                if rem <= 1 {
                    match self.events.remove(id) {
                        Some(taken) => Some(taken.event),
                        None => None,
                    }
                } else {
                    let payload = self.events.value_at(slot).event.clone();
                    let cell = self.events.value_at_mut(slot);
                    cell.rem = rem - 1;
                    proof {
                        assert(self@.slots =~= old(self)@.read(id).slots);
                    }
                    Some(payload)
                }
            },
        }
    }
}

/// The buses of the world, found by the key of their event type.
pub struct Events<E> {
    storage: SparseSet<EventBus<E>>,
}

impl<E> Events<E> {
    /// The buses, by type key.
    pub closed spec fn storage(&self) -> SparseSet<EventBus<E>> {
        self.storage
    }

    /// The state of each bus.
    pub open spec fn view(&self) -> Map<usize, BusState<E>> {
        Map::new(|k: usize| self.storage()@.contains_key(k), |k: usize| self.storage()@[k]@)
    }

    pub open spec fn buses_wf(buses: Map<usize, EventBus<E>>) -> bool {
        forall|k: usize| buses.contains_key(k) ==> (#[trigger] buses[k]).wf()
    }

    pub open spec fn wf(&self) -> bool {
        &&& self.storage().wf()
        &&& Self::buses_wf(self.storage()@)
    }

    /// The buses after a write of `event` to the bus of type `key`. Where
    /// there is no such bus yet, the write creates one and the event is
    /// dropped, for nobody reads it.
    pub open spec fn written(buses: Map<usize, BusState<E>>, key: TypeKey, event: E) -> Map<
        usize,
        BusState<E>,
    > {
        if buses.contains_key(key.0) {
            buses.insert(key.0, buses[key.0].write(event))
        } else {
            buses.insert(key.0, BusState::made_by_writer())
        }
    }

    /// The id that a write to the bus of type `key` hands out.
    pub open spec fn upcoming(buses: Map<usize, BusState<E>>, key: TypeKey) -> usize {
        if buses.contains_key(key.0) {
            buses[key.0].next_id
        } else {
            0
        }
    }

    /// The buses after one reader has read event `id` of type `key`.
    pub open spec fn consumed(buses: Map<usize, BusState<E>>, key: TypeKey, id: usize) -> Map<
        usize,
        BusState<E>,
    > {
        if buses.contains_key(key.0) {
            buses.insert(key.0, buses[key.0].read(id))
        } else {
            buses
        }
    }

    /// How many events of type `key` a reader whose cursor stands at `from`
    /// can read in a row.
    pub open spec fn run(buses: Map<usize, BusState<E>>, key: TypeKey, from: usize) -> nat {
        if buses.contains_key(key.0) {
            buses[key.0].run(from)
        } else {
            0
        }
    }

    /// The buses after a reader has read the `n` events of type `key` from
    /// `from` on.
    pub open spec fn consumed_run(
        buses: Map<usize, BusState<E>>,
        key: TypeKey,
        from: usize,
        n: nat,
    ) -> Map<usize, BusState<E>> {
        if buses.contains_key(key.0) {
            buses.insert(key.0, buses[key.0].read_run(from, n))
        } else {
            buses
        }
    }

    /// Whether event `id` of type `key` is still unread by some reader.
    pub open spec fn holds(buses: Map<usize, BusState<E>>, key: TypeKey, id: usize) -> bool {
        buses.contains_key(key.0) && buses[key.0].slots.contains_key(id)
    }

    /// The buses after one more reader has subscribed to type `key`.
    pub open spec fn subscribed(buses: Map<usize, BusState<E>>, key: TypeKey) -> Map<
        usize,
        BusState<E>,
    > {
        if buses.contains_key(key.0) {
            buses.insert(key.0, buses[key.0].subscribe())
        } else {
            buses.insert(key.0, BusState::made_by_reader())
        }
    }

    /// The buses after one reader of type `key` has unsubscribed.
    pub open spec fn unsubscribed(buses: Map<usize, BusState<E>>, key: TypeKey) -> Map<
        usize,
        BusState<E>,
    > {
        if buses.contains_key(key.0) {
            buses.insert(key.0, buses[key.0].unsubscribe())
        } else {
            buses
        }
    }

    /// Every bus of a sound registry holds a sound state.
    pub proof fn lemma_view_wf(&self)
        requires
            self.wf(),
        ensures
            forall|k: usize| self@.contains_key(k) ==> (#[trigger] self@[k]).wf(),
    {
        assert forall|k: usize| self@.contains_key(k) implies (#[trigger] self@[k]).wf() by {
            assert(self.storage()@.contains_key(k));
            self.storage()@[k].lemma_view_wf();
        }
    }

    pub fn new() -> (events: Self)
        ensures
            events.wf(),
            events@ == Map::<usize, BusState<E>>::empty(),
    {
        let events = Events { storage: SparseSet::new() };
        assert(events@ =~= Map::<usize, BusState<E>>::empty());
        events
    }

    /// Replacing one sound bus by another leaves the registry sound.
    proof fn lemma_bus_replaced(before: Self, after: Self, key: TypeKey)
        requires
            before.wf(),
            before.storage()@.contains_key(key.0),
            after.storage().ids() == before.storage().ids(),
            after.storage().slots() == before.storage().slots(),
            after.storage().values() == before.storage().values().update(
                before.storage().slots()[key.0] as int,
                after.storage().values()[before.storage().slots()[key.0] as int],
            ),
            after.storage().values()[before.storage().slots()[key.0] as int].wf(),
        ensures
            after.wf(),
            after.storage()@.contains_key(key.0),
            after.storage()@[key.0] == after.storage().values()[before.storage().slots()[key.0] as int],
            after@ == before@.insert(key.0, after.storage()@[key.0]@),
    {
        let slot = before.storage().slots()[key.0] as int;
        assert(before.storage().slots().contains_key(key.0));
        SparseSet::lemma_value_replaced(before.storage(), after.storage(), slot);
        assert forall|k: usize| after.storage()@.contains_key(k) implies (
        #[trigger] after.storage()@[k]).wf() by {
            assert(before.storage()@.contains_key(k));
            assert(before.storage()@[k].wf());
        }
        assert(after@ =~= before@.insert(key.0, after.storage()@[key.0]@));
    }

    /// Writes an event to the bus of type `key` and returns its id. Where
    /// there is no such bus yet, one is created.
    pub fn insert(&mut self, key: TypeKey, event: E) -> (id: EventId)
        requires
            old(self).wf(),
            Self::upcoming(old(self)@, key) < usize::MAX,
        ensures
            final(self).wf(),
            id.0 == Self::upcoming(old(self)@, key),
            final(self)@ == Self::written(old(self)@, key, event),
    {
        match self.storage.slot_of(key.0) {
            Some(slot) => {
                let bus = self.storage.value_at_mut(slot);
                let id = bus.insert(event);
                proof {
                    Self::lemma_bus_replaced(*old(self), *self, key);
                }
                id
            },
            None => {
                self.storage.insert(key.0, EventBus::new(0, 1));
                proof {
                    assert(self@ =~= Self::written(old(self)@, key, event));
                }
                EventId(0)
            },
        }
    }

    /// Registers a reader to the bus of type `key`. Where there is no such
    /// bus yet, one is created.
    pub fn add_reader(&mut self, key: TypeKey)
        requires
            old(self).wf(),
            old(self)@.contains_key(key.0) ==> old(self)@[key.0].readers < usize::MAX,
        ensures
            final(self).wf(),
            final(self)@ == Self::subscribed(old(self)@, key),
    {
        match self.storage.slot_of(key.0) {
            Some(slot) => {
                let bus = self.storage.value_at_mut(slot);
                bus.add_reader();
                proof {
                    Self::lemma_bus_replaced(*old(self), *self, key);
                }
            },
            None => {
                self.storage.insert(key.0, EventBus::new(1, 0));
                proof {
                    assert(self@ =~= Self::subscribed(old(self)@, key));
                }
            },
        }
    }

    /// Unregisters a reader from the bus of type `key`, if there is such a
    /// bus.
    pub fn remove_reader(&mut self, key: TypeKey)
        requires
            old(self).wf(),
            old(self)@.contains_key(key.0) ==> old(self)@[key.0].readers > 0,
        ensures
            final(self).wf(),
            final(self)@ == Self::unsubscribed(old(self)@, key),
    {
        match self.storage.slot_of(key.0) {
            Some(slot) => {
                let bus = self.storage.value_at_mut(slot);
                bus.remove_reader();
                proof {
                    Self::lemma_bus_replaced(*old(self), *self, key);
                }
            },
            None => {},
        }
    }

    /// The id that the next write to the bus of type `key` will get, if
    /// there is such a bus.
    pub fn next_id(&self, key: TypeKey) -> (id: Option<EventId>)
        requires
            self.wf(),
        ensures
            id is Some <==> self@.contains_key(key.0),
            id matches Some(i) ==> i.0 == self@[key.0].next_id,
    {
        match self.storage.get(key.0) {
            Some(bus) => Some(EventId(bus.upcoming_id())),
            None => None,
        }
    }

    /// The number of readers subscribed to the bus of type `key`.
    pub fn readers(&self, key: TypeKey) -> (n: usize)
        requires
            self.wf(),
        ensures
            n == (if self@.contains_key(key.0) {
                self@[key.0].readers
            } else {
                0
            }),
    {
        match self.storage.get(key.0) {
            Some(bus) => bus.reader_count(),
            None => 0,
        }
    }

    /// The number of unread events of type `key`.
    pub fn unread(&self, key: TypeKey) -> (n: usize)
        requires
            self.wf(),
        ensures
            n == (if self@.contains_key(key.0) {
                self@[key.0].slots.dom().len()
            } else {
                0
            }),
    {
        match self.storage.get(key.0) {
            Some(bus) => bus.unread(),
            None => 0,
        }
    }
}

impl<E: Clone> Events<E> {
    /// Reads event `id` of type `key` on behalf of one reader. Where there is
    /// no such bus or no such event, nothing changes.
    pub fn get(&mut self, key: TypeKey, id: usize) -> (event: Option<E>)
        requires
            old(self).wf(),
        ensures
            final(self).wf(),
            event is Some <==> Self::holds(old(self)@, key, id),
            event matches Some(e) ==> cloned(old(self)@[key.0].slots[id].event, e),
            final(self)@ == Self::consumed(old(self)@, key, id),
    {
        match self.storage.slot_of(key.0) {
            Some(slot) => {
                let bus = self.storage.value_at_mut(slot);
                let event = bus.get(id);
                proof {
                    Self::lemma_bus_replaced(*old(self), *self, key);
                }
                event
            },
            None => None,
        }
    }
}

impl<E> Default for Events<E> {
    /// A registry without buses.
    fn default() -> (events: Self)
        ensures
            events.wf(),
            events@ == Map::<usize, BusState<E>>::empty(),
    {
        Events::new()
    }
}

/// What a reader remembers between ticks: the id of the next event that it
/// has not seen yet.
pub struct EventState {
    pub last_read: usize,
}

/// Writes events of one type.
pub struct EventWriter {
    key: TypeKey,
}

impl EventWriter {
    /// The key of the event type that this writer writes.
    pub closed spec fn key(&self) -> TypeKey {
        self.key
    }

    pub fn new(key: TypeKey) -> (writer: Self)
        ensures
            writer.key() == key,
    {
        EventWriter { key }
    }

    /// What the writer means to the scheduler: nothing that could alias.
    pub fn descriptor() -> (param: SystemParamDescriptor)
        ensures
            param == SystemParamDescriptor::EventWriter,
    {
        SystemParamDescriptor::EventWriter
    }

    /// Writes an event into the channel, returning its id.
    pub fn write<E>(&mut self, events: &mut Events<E>, event: E) -> (id: EventId)
        requires
            old(events).wf(),
            Events::upcoming(old(events)@, old(self).key()) < usize::MAX,
        ensures
            final(self).key() == old(self).key(),
            final(events).wf(),
            id.0 == Events::upcoming(old(events)@, old(self).key()),
            final(events)@ == Events::written(old(events)@, old(self).key(), event),
    {
        events.insert(self.key, event)
    }
}

/// Reads events of one type, each once and in ascending order of their
/// ids.
pub struct EventReader {
    key: TypeKey,
    state: EventState,
}

impl EventReader {
    /// The key of the event type that this reader reads.
    pub closed spec fn key(&self) -> TypeKey {
        self.key
    }

    /// The id of the next event that this reader has not seen yet.
    pub closed spec fn cursor(&self) -> usize {
        self.state.last_read
    }

    /// The state of a reader that starts now: it will see the events written
    /// from now on, and none of those written before.
    pub fn state<E>(events: &Events<E>, key: TypeKey) -> (state: EventState)
        requires
            events.wf(),
        ensures
            state.last_read == Events::upcoming(events@, key),
    {
        match events.next_id(key) {
            Some(id) => EventState { last_read: id.0 },
            None => EventState { last_read: 0 },
        }
    }

    pub fn new(key: TypeKey, state: EventState) -> (reader: Self)
        ensures
            reader.key() == key,
            reader.cursor() == state.last_read,
    {
        EventReader { key, state }
    }

    /// What the reader means to the scheduler: nothing that could alias.
    pub fn descriptor() -> (param: SystemParamDescriptor)
        ensures
            param == SystemParamDescriptor::EventReader,
    {
        SystemParamDescriptor::EventReader
    }

    /// The id of the next event that this reader has not seen yet.
    pub fn position(&self) -> (cursor: usize)
        ensures
            cursor == self.cursor(),
    {
        self.state.last_read
    }

    /// Subscribes this reader to its bus. Done once, before its first read.
    pub fn init<E>(&self, events: &mut Events<E>)
        requires
            old(events).wf(),
            old(events)@.contains_key(self.key().0) ==> old(events)@[self.key().0].readers
                < usize::MAX,
        ensures
            final(events).wf(),
            final(events)@ == Events::subscribed(old(events)@, self.key()),
    {
        events.add_reader(self.key);
    }

    /// Unsubscribes this reader from its bus. Done once, when it is retired.
    pub fn destroy<E>(&self, events: &mut Events<E>)
        requires
            old(events).wf(),
            old(events)@.contains_key(self.key().0) ==> old(events)@[self.key().0].readers > 0,
        ensures
            final(events).wf(),
            final(events)@ == Events::unsubscribed(old(events)@, self.key()),
    {
        events.remove_reader(self.key);
    }

    /// The number of events written since this reader's last read.
    pub fn len<E>(&self, events: &Events<E>) -> (n: usize)
        requires
            events.wf(),
            self.cursor() <= Events::upcoming(events@, self.key()),
        ensures
            n == Events::upcoming(events@, self.key()) - self.cursor(),
    {
        let next_id = match events.next_id(self.key) {
            Some(id) => id.0,
            None => 0,
        };
        next_id - self.state.last_read
    }

    /// Whether no event was written since this reader's last read.
    pub fn is_empty<E>(&self, events: &Events<E>) -> (empty: bool)
        requires
            events.wf(),
            self.cursor() <= Events::upcoming(events@, self.key()),
        ensures
            empty == (Events::upcoming(events@, self.key()) == self.cursor()),
    {
        self.len(events) == 0
    }

    /// Reads the event under the cursor and moves the cursor past it. Where
    /// there is no such event, nothing changes.
    pub fn next<E: Clone>(&mut self, events: &mut Events<E>) -> (event: Option<E>)
        requires
            old(events).wf(),
        ensures
            final(events).wf(),
            final(self).key() == old(self).key(),
            event is Some <==> Events::holds(old(events)@, old(self).key(), old(self).cursor()),
            event matches Some(e) ==> cloned(
                old(events)@[old(self).key().0].slots[old(self).cursor()].event,
                e,
            ),
            event is Some ==> final(self).cursor() == old(self).cursor() + 1,
            event is None ==> final(self).cursor() == old(self).cursor(),
            final(events)@ == Events::consumed(old(events)@, old(self).key(), old(self).cursor()),
            event is None ==> final(events)@ == old(events)@,
    {
        let index = self.state.last_read;
        let item = events.get(self.key, index);
        proof {
            if item is None {
                assert(events@ =~= old(events)@);
            }
        }
        if item.is_some() {
            proof {
                old(events).lemma_view_wf();
                assert(old(events)@[self.key.0].slots.contains_key(index));
            }
            self.state.last_read = index + 1;
        }
        item
    }

    /// Reads every event from the cursor on, up to the first that is
    /// missing, and moves the cursor past them. The events come in ascending
    /// order of their ids.
    pub fn read<E: Clone>(&mut self, events: &mut Events<E>) -> (out: Vec<E>)
        requires
            old(events).wf(),
        ensures
            final(events).wf(),
            final(self).key() == old(self).key(),
            out.len() == Events::run(old(events)@, old(self).key(), old(self).cursor()),
            final(self).cursor() == old(self).cursor() + out.len(),
            final(events)@ == Events::consumed_run(
                old(events)@,
                old(self).key(),
                old(self).cursor(),
                out.len() as nat,
            ),
            forall|i: int|
                0 <= i < out.len() ==> cloned(
                    old(events)@[old(self).key().0].slots[(old(self).cursor() + i) as usize].event,
                    #[trigger] out[i],
                ),
    {
        let ghost key = self.key;
        let ghost start = self.state.last_read;
        let ghost first = events@;
        let mut out: Vec<E> = Vec::new();
        let mut done = false;
        proof {
            assert(events@ =~= Events::consumed_run(first, key, start, 0));
        }
        while !done
            invariant
                events.wf(),
                self.key() == key,
                old(self).key() == key,
                old(self).cursor() == start,
                old(events)@ == first,
                self.cursor() == start + out.len(),
                events@ == Events::consumed_run(first, key, start, out.len() as nat),
                out.len() + Events::run(events@, key, self.cursor()) == Events::run(
                    first,
                    key,
                    start,
                ),
                done ==> Events::run(events@, key, self.cursor()) == 0,
                first.contains_key(key.0) ==> forall|id: usize|
                    id >= self.cursor() ==> (#[trigger] events@[key.0].slots.contains_key(id))
                        == first[key.0].slots.contains_key(id) && events@[key.0].slots[id]
                        == first[key.0].slots[id],
                first.contains_key(key.0) ==> events@[key.0].next_id == first[key.0].next_id,
                forall|i: int|
                    0 <= i < out.len() ==> cloned(
                        first[key.0].slots[(start + i) as usize].event,
                        #[trigger] out[i],
                    ),
            decreases Events::run(events@, key, self.cursor()), (if done { 0nat } else { 1nat }),
        {
            let ghost before = events@;
            let ghost cursor = self.state.last_read;
            let ghost count = out.len() as nat;
            proof {
                events.lemma_view_wf();
            }
            match self.next(events) {
                Some(event) => {
                    proof {
                        let bus = before[key.0];
                        let after = events@[key.0];
                        assert(after == bus.read(cursor));
                        assert(before.contains_key(key.0));
                        assert(bus.wf());
                        assert(bus.slots.contains_key(cursor));
                        assert(first[key.0].slots.contains_key(cursor));
                        assert(cursor < bus.next_id);
                        assert forall|id: usize| id >= (cursor + 1) as usize implies (
                        #[trigger] after.slots.contains_key(id)) == bus.slots.contains_key(id) by {}
                        after.lemma_run_agree(bus, (cursor + 1) as usize);
                        first[key.0].lemma_read_run_next(start, count);
                        assert(events@ =~= Events::consumed_run(first, key, start, count + 1));
                    }
                    out.push(event);
                },
                None => {
                    done = true;
                },
            }
        }
        out
    }
}

} // verus!
