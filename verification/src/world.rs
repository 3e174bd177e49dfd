use vstd::prelude::*;
use crate::component::{Components, SpawnBundle, TypeKey};
use crate::entity::{Entities, EntityId};
use crate::event::{BusState, Events};
use crate::resource::Resources;
use crate::scheduler::{MultiThreadedExecutor, Schedule, Scheduler, SingleThreadedExecutor};

verus! {

/// Everything that the systems of a schedule work on: the entities, their
/// components, the resources, the event buses, and the queue of structural
/// changes that wait for the end of the tick.
///
/// `C` is the type of a component value, `R` that of a resource and `E`
/// that of an event.
pub struct World<C, R, E> {
    pub entities: Entities,
    pub components: Components<C>,
    pub scheduler: Scheduler,
    pub events: Events<E>,
    pub resources: Resources<R>,
}

/// A handle on one entity of a world.
#[derive(Debug, Copy, Clone, PartialEq, Eq, Structural)]
pub struct Entity {
    id: EntityId,
}

impl<C, R, E> World<C, R, E> {
    pub open spec fn wf(&self) -> bool {
        &&& self.components.wf()
        &&& self.scheduler.wf()
        &&& self.events.wf()
        &&& self.resources.wf()
    }

    /// A world without entities, components, resources or events.
    pub fn new() -> (world: Self)
        ensures
            world.wf(),
            world.entities@ == Set::<usize>::empty(),
            world.entities.bits().len() == 0,
            world.components@ == Map::<usize, Map<usize, C>>::empty(),
            world.components.unlocked(),
            world.resources@ == Map::<usize, R>::empty(),
            world.events@ == Map::<usize, BusState<E>>::empty(),
            world.scheduler.despawned() == Set::<usize>::empty(),
            world.scheduler.removals() == Set::<(usize, usize)>::empty(),
    {
        World {
            entities: Entities::new(),
            components: Components::new(),
            scheduler: Scheduler::new(),
            events: Events::new(),
            resources: Resources::new(),
        }
    }

    /// Spawns an entity: it gets the lowest id that is not live, and the
    /// components of the bundle, one after another, up to the first whose
    /// column is locked.
    pub fn spawn<B: SpawnBundle<C>>(&mut self, bundle: B) -> (entity: Entity)
        requires
            old(self).wf(),
            old(self).entities.has_room(),
        ensures
            final(self).wf(),
            !old(self).entities.is_live(entity.id()),
            forall|lower: usize| lower < entity.id().0 ==> old(self).entities.is_live(EntityId(lower)),
            final(self).entities@ == old(self).entities@.insert(entity.id().0),
            final(self).components@ == Components::<C>::with_bundle(
                old(self).components@,
                entity.id(),
                bundle.components(),
                Components::<C>::bundle_run(old(self).components.locks(), bundle.components()),
            ),
            final(self).components.locks() == Components::<C>::locks_with_bundle(
                old(self).components.locks(),
                bundle.components(),
                Components::<C>::bundle_run(old(self).components.locks(), bundle.components()),
            ),
            old(self).components.unlocked() ==> final(self).components.unlocked(),
            final(self).scheduler == old(self).scheduler,
            final(self).events == old(self).events,
            final(self).resources == old(self).resources,
    {
        let id = self.entities.allocate();
        let _ = bundle.insert_into(&mut self.components, id);
        Entity { id }
    }

    /// Spawns an entity without components.
    pub fn spawn_empty(&mut self) -> (entity: Entity)
        requires
            old(self).wf(),
            old(self).entities.has_room(),
        ensures
            final(self).wf(),
            !old(self).entities.is_live(entity.id()),
            forall|lower: usize| lower < entity.id().0 ==> old(self).entities.is_live(EntityId(lower)),
            final(self).entities@ == old(self).entities@.insert(entity.id().0),
            final(self).components@ == old(self).components@,
            final(self).components.locks() == old(self).components.locks(),
            final(self).scheduler == old(self).scheduler,
            final(self).events == old(self).events,
            final(self).resources == old(self).resources,
    {
        self.spawn(())
    }

    /// Inserts the resource of type `key`, in place of the one that may be
    /// there.
    pub fn add_resource(&mut self, key: TypeKey, resource: R)
        requires
            old(self).wf(),
        ensures
            final(self).wf(),
            final(self).resources@ == old(self).resources@.insert(key.0, resource),
            final(self).resources.locks() == old(self).resources.locks().insert(key.0, 0),
            final(self).entities == old(self).entities,
            final(self).components == old(self).components,
            final(self).scheduler == old(self).scheduler,
            final(self).events == old(self).events,
    {
        self.resources.insert(key, resource);
    }

    /// A schedule whose systems run on the calling thread.
    pub fn schedule_single_threaded(&self) -> (schedule: Schedule<SingleThreadedExecutor>)
        ensures
            schedule.wf(),
            schedule.systems().len() == 0,
    {
        Schedule::new()
    }

    /// A schedule whose systems run on a pool of worker threads.
    pub fn schedule_multi_threaded(&self) -> (schedule: Schedule<MultiThreadedExecutor>)
        ensures
            schedule.wf(),
            schedule.systems().len() == 0,
    {
        Schedule::new()
    }

    /// Runs before the systems of a tick.
    pub fn pre_tick(&self) {
        self.scheduler.pre_tick();
    }

    /// Ends a tick, once its systems are done and their locks released:
    /// takes away the components whose removal was asked for, despawns the
    /// entities whose despawn was asked for, and drops the columns left
    /// without values.
    pub fn post_tick(&mut self)
        requires
            old(self).wf(),
            old(self).components.unlocked(),
        ensures
            final(self).wf(),
            final(self).components.unlocked(),
            final(self).scheduler.despawned() == Set::<usize>::empty(),
            final(self).scheduler.removals() == Set::<(usize, usize)>::empty(),
            final(self).entities@ == old(self).entities@.difference(old(self).scheduler.despawned()),
            final(self).components@ == Components::<C>::pruned(
                Components::<C>::stripped(
                    old(self).components@,
                    old(self).scheduler.removals(),
                    old(self).scheduler.despawned(),
                ),
            ),
            final(self).events == old(self).events,
            final(self).resources == old(self).resources,
    {
        self.scheduler.post_tick(&mut self.entities, &mut self.components);
    }
}

impl<C, R, E> Default for World<C, R, E> {
    /// A world without entities, components, resources or events.
    fn default() -> (world: Self)
        ensures
            world.wf(),
            world.entities@ == Set::<usize>::empty(),
            world.entities.bits().len() == 0,
            world.components@ == Map::<usize, Map<usize, C>>::empty(),
            world.components.unlocked(),
            world.resources@ == Map::<usize, R>::empty(),
            world.events@ == Map::<usize, BusState<E>>::empty(),
            world.scheduler.despawned() == Set::<usize>::empty(),
            world.scheduler.removals() == Set::<(usize, usize)>::empty(),
    {
        World::new()
    }
}

/// An entity whose despawn was asked for during a tick is gone once the tick
/// has ended: it is not live, and no column holds a component of it.
pub proof fn lemma_despawn_takes_effect<C>(
    live: Set<usize>,
    view: Map<usize, Map<usize, C>>,
    removals: Set<(usize, usize)>,
    despawned: Set<usize>,
    entity: EntityId,
)
    requires
        despawned.contains(entity.0),
    ensures
        !live.difference(despawned).contains(entity.0),
        forall|k: usize|
            Components::<C>::pruned(
                Components::<C>::stripped(view, removals, despawned),
            ).contains_key(k) ==> !(#[trigger] Components::<C>::pruned(
                Components::<C>::stripped(view, removals, despawned),
            )[k]).contains_key(entity.0),
{
}

impl Entity {
    /// The id of the entity.
    pub closed spec fn spec_id(&self) -> EntityId {
        self.id
    }

    /// The handle on the entity with the given id.
    pub fn new(id: EntityId) -> (entity: Self)
        ensures
            entity.id() == id,
    {
        Entity { id }
    }

    /// The id of the entity.
    #[verifier::when_used_as_spec(spec_id)]
    pub fn id(&self) -> (id: EntityId)
        ensures
            id == self.spec_id(),
    {
        self.id
    }

    /// Despawns the entity, invalidating its id and removing all its
    /// components from storage. The change is only carried out at the end
    /// of the tick.
    pub fn despawn<C, R, E>(self, world: &mut World<C, R, E>)
        requires
            old(world).wf(),
        ensures
            final(world).wf(),
            final(world).scheduler.despawned() == old(world).scheduler.despawned().insert(
                self.id().0,
            ),
            final(world).scheduler.removals() == old(world).scheduler.removals(),
            final(world).entities == old(world).entities,
            final(world).components == old(world).components,
            final(world).events == old(world).events,
            final(world).resources == old(world).resources,
    {
        world.scheduler.schedule_despawn(self.id);
    }

    /// Whether the entity owns a component of type `key`.
    pub fn has<C, R, E>(&self, world: &World<C, R, E>, key: TypeKey) -> (present: bool)
        requires
            world.wf(),
        ensures
            present == world.components.has(key, self.id()),
    {
        world.components.has_component(key, self.id)
    }

    /// Removes a component from the entity. The change is only carried out
    /// at the end of the tick. If the entity does not own such a component,
    /// nothing will change then.
    pub fn remove<C, R, E>(&self, world: &mut World<C, R, E>, key: TypeKey)
        requires
            old(world).wf(),
        ensures
            final(world).wf(),
            final(world).scheduler.despawned() == old(world).scheduler.despawned(),
            final(world).scheduler.removals() == old(world).scheduler.removals().insert(
                (key.0, self.id().0),
            ),
            final(world).entities == old(world).entities,
            final(world).components == old(world).components,
            final(world).events == old(world).events,
            final(world).resources == old(world).resources,
    {
        world.scheduler.schedule_remove_component(self.id, key);
    }
}

} // verus!
