use ecs::component::TypeKey;
use ecs::entity::EntityId;
use ecs::event::{EventReader, EventWriter};
use ecs::filter::{FilterParams, Without};
use ecs::query::{Query, QueryParams};
use ecs::resource::{Res, ResMut};
use ecs::scheduler::{BorrowedTypeDescriptor, Scheduler};
use ecs::state::State;
use ecs::world::{Entity, World};
use ecs::component::Components;
use ecs::entity::Entities;

const HEALTH: TypeKey = TypeKey(1);
const IMMORTAL: TypeKey = TypeKey(2);
const LAST_UPDATE: TypeKey = TypeKey(3);
const KILL_COUNTER: TypeKey = TypeKey(21);
const KILLED: TypeKey = TypeKey(31);
const INTERVAL: TypeKey = TypeKey(32);

#[derive(Debug, Clone, Copy, PartialEq)]
enum Component {
    Health(f32),
    Immortal,
    LastUpdate(u64),
}

#[derive(Debug, Clone, Copy, PartialEq)]
enum Event {
    Killed(Entity),
    Interval,
}

type Game = World<Component, u32, Event>;

fn shared(type_id: TypeKey) -> BorrowedTypeDescriptor {
    BorrowedTypeDescriptor { exclusive: false, type_id }
}

fn exclusive(type_id: TypeKey) -> BorrowedTypeDescriptor {
    BorrowedTypeDescriptor { exclusive: true, type_id }
}

#[test]
fn spawn_hands_out_the_lowest_free_id_with_the_bundle() {
    let mut world = Game::new();
    let a = world.spawn(vec![(HEALTH, Component::Health(1.0))]);
    let b = world.spawn(vec![(HEALTH, Component::Health(2.0)), (IMMORTAL, Component::Immortal)]);
    let c = world.spawn_empty();
    assert_eq!((a.id(), b.id(), c.id()), (EntityId(0), EntityId(1), EntityId(2)));
    assert!(a.has(&world, HEALTH));
    assert!(!a.has(&world, IMMORTAL));
    assert!(b.has(&world, IMMORTAL));
    assert!(!c.has(&world, HEALTH));
    assert_eq!(
        world.components.fetch_shared(HEALTH, b.id()),
        Some(&Component::Health(2.0))
    );
    assert_eq!(world.entities.iter(), vec![EntityId(0), EntityId(1), EntityId(2)]);
}

#[test]
fn spawn_then_despawn_takes_effect_at_the_tick_boundary() {
    let mut world = Game::new();
    let keep = world.spawn(vec![(HEALTH, Component::Health(1.0))]);
    let gone = world.spawn(vec![(HEALTH, Component::Health(2.0)), (IMMORTAL, Component::Immortal)]);
    gone.despawn(&mut world);
    assert!(world.entities.contains(gone.id()));
    assert!(gone.has(&world, HEALTH));
    world.post_tick();
    assert!(!world.entities.contains(gone.id()));
    assert!(!gone.has(&world, HEALTH));
    assert!(!gone.has(&world, IMMORTAL));
    assert!(world.components.get_column(IMMORTAL).is_none());
    assert!(keep.has(&world, HEALTH));
    assert_eq!(world.entities.iter(), vec![keep.id()]);
    assert_eq!(world.spawn_empty().id(), gone.id());
}

#[test]
fn despawn_of_a_despawned_entity_is_a_no_op() {
    let mut world = Game::new();
    let keep = world.spawn(vec![(HEALTH, Component::Health(1.0))]);
    let gone = world.spawn(vec![(HEALTH, Component::Health(2.0))]);
    gone.despawn(&mut world);
    gone.despawn(&mut world);
    world.post_tick();
    gone.despawn(&mut world);
    Entity::new(EntityId(40)).despawn(&mut world);
    world.post_tick();
    assert_eq!(world.entities.iter(), vec![keep.id()]);
    assert_eq!(
        world.components.fetch_shared(HEALTH, keep.id()),
        Some(&Component::Health(1.0))
    );
    assert_eq!(world.components.column_count(), 1);
}

#[test]
fn remove_is_deferred_and_prunes_the_emptied_column() {
    let mut world = Game::new();
    let a = world.spawn(vec![(HEALTH, Component::Health(1.0)), (IMMORTAL, Component::Immortal)]);
    let b = world.spawn(vec![(HEALTH, Component::Health(2.0))]);
    a.remove(&mut world, IMMORTAL);
    b.remove(&mut world, IMMORTAL);
    a.remove(&mut world, TypeKey(77));
    assert!(a.has(&world, IMMORTAL));
    world.post_tick();
    assert!(!a.has(&world, IMMORTAL));
    assert!(a.has(&world, HEALTH));
    assert!(b.has(&world, HEALTH));
    assert!(world.components.get_column(IMMORTAL).is_none());
    assert_eq!(world.components.column_count(), 1);
    assert_eq!(world.entities.iter(), vec![a.id(), b.id()]);
    world.post_tick();
    assert_eq!(world.components.column_count(), 1);
}

#[test]
fn removals_are_applied_before_despawns() {
    let mut world = Game::new();
    let a = world.spawn(vec![(HEALTH, Component::Health(1.0)), (IMMORTAL, Component::Immortal)]);
    a.remove(&mut world, HEALTH);
    a.despawn(&mut world);
    world.post_tick();
    assert!(!world.entities.contains(a.id()));
    assert_eq!(world.components.column_count(), 0);
}

#[test]
fn scheduler_queues_are_empty_after_the_tick() {
    let mut scheduler = Scheduler::new();
    let mut entities = Entities::new();
    let mut components: Components<u8> = Components::new();
    for n in 0..3 {
        let id = entities.allocate();
        components.insert(HEALTH, id, n).unwrap();
    }
    scheduler.schedule_despawn(EntityId(1));
    scheduler.schedule_remove_component(EntityId(2), HEALTH);
    scheduler.pre_tick();
    scheduler.post_tick(&mut entities, &mut components);
    assert_eq!(entities.iter(), vec![EntityId(0), EntityId(2)]);
    assert!(!components.has_component(HEALTH, EntityId(1)));
    assert!(!components.has_component(HEALTH, EntityId(2)));
    assert!(components.has_component(HEALTH, EntityId(0)));
    let id = entities.allocate();
    components.insert(HEALTH, id, 9).unwrap();
    components.insert(HEALTH, EntityId(2), 8).unwrap();
    scheduler.post_tick(&mut entities, &mut components);
    assert_eq!(entities.iter(), vec![EntityId(0), EntityId(1), EntityId(2)]);
    assert_eq!(components.fetch_shared(HEALTH, EntityId(1)), Some(&9));
    assert_eq!(components.fetch_shared(HEALTH, EntityId(2)), Some(&8));
}

#[test]
fn add_resource_replaces_the_resource() {
    let mut world = Game::new();
    world.add_resource(KILL_COUNTER, 3);
    world.add_resource(KILL_COUNTER, 4);
    assert_eq!(world.resources.get(KILL_COUNTER), Ok(&4));
}

fn detection(world: &mut Game, writer: &mut EventWriter) {
    let params = QueryParams::new().with(shared(HEALTH));
    let filter = FilterParams::new().and_without(Without(IMMORTAL));
    let query = Query::new(&mut world.components, params, filter).unwrap();
    for id in query.iter(&world.entities, &world.components) {
        if let Some(Component::Health(health)) = world.components.fetch_shared(HEALTH, id) {
            if *health <= 0.0 {
                writer.write(&mut world.events, Event::Killed(Entity::new(id)));
            }
        }
    }
    query.release(&mut world.components);
}

fn execution(world: &mut Game, reader: &mut EventReader) {
    let mut counter = ResMut::fetch(KILL_COUNTER);
    for event in reader.read(&mut world.events) {
        if let Event::Killed(entity) = event {
            *counter.deref_mut(&mut world.resources).unwrap() += 1;
            entity.despawn(world);
        }
    }
    counter.release(&mut world.resources);
}

#[test]
fn killed_entities_are_counted_and_despawned_after_one_tick() {
    let mut world = Game::new();
    let first = world.spawn(vec![(HEALTH, Component::Health(0.0))]);
    let alive = world.spawn(vec![(HEALTH, Component::Health(1.0))]);
    let second = world.spawn(vec![(HEALTH, Component::Health(0.0))]);
    let immortal =
        world.spawn(vec![(HEALTH, Component::Health(0.0)), (IMMORTAL, Component::Immortal)]);
    world.add_resource(KILL_COUNTER, 0);

    let mut schedule = world.schedule_single_threaded();
    let mut writer = EventWriter::new(KILLED);
    let mut reader = EventReader::new(KILLED, EventReader::state(&world.events, KILLED));
    reader.init(&mut world.events);
    schedule.add_system(vec![
        QueryParams::new().with(shared(HEALTH)).descriptor(),
        EventWriter::descriptor(),
    ]);
    schedule.add_system(vec![EventReader::descriptor(), ResMut::descriptor(KILL_COUNTER)]);
    assert_eq!(schedule.waves(), vec![0, 0]);

    world.pre_tick();
    detection(&mut world, &mut writer);
    execution(&mut world, &mut reader);
    world.post_tick();

    assert_eq!(world.resources.get(KILL_COUNTER), Ok(&2));
    assert!(!world.entities.contains(first.id()));
    assert!(!world.entities.contains(second.id()));
    assert!(world.entities.contains(alive.id()));
    assert!(world.entities.contains(immortal.id()));
    assert!(immortal.has(&world, HEALTH));
    assert!(!first.has(&world, HEALTH));
    assert_eq!(world.events.unread(KILLED), 0);
    assert_eq!(world.entities.iter(), vec![alive.id(), immortal.id()]);
}

fn interval_system(world: &mut Game, writer: &mut EventWriter, now: u64) {
    let params = QueryParams::new().with(exclusive(LAST_UPDATE));
    let query = Query::new(&mut world.components, params, FilterParams::new()).unwrap();
    let id = query.iter(&world.entities, &world.components)[0];
    let mut fire = false;
    if let Some(Component::LastUpdate(instant)) = world.components.fetch_exclusive(LAST_UPDATE, id) {
        if now - *instant >= 1000 {
            *instant = now;
            fire = true;
        }
    }
    if fire {
        writer.write(&mut world.events, Event::Interval);
    }
    query.release(&mut world.components);
}

#[test]
fn one_interval_event_in_twenty_five_ticks_of_fifty_milliseconds() {
    let mut world = Game::new();
    world.spawn(vec![(LAST_UPDATE, Component::LastUpdate(0))]);
    let mut writer = EventWriter::new(INTERVAL);
    let mut readers = vec![
        EventReader::new(INTERVAL, EventReader::state(&world.events, INTERVAL)),
        EventReader::new(INTERVAL, EventReader::state(&world.events, INTERVAL)),
    ];
    for reader in &readers {
        reader.init(&mut world.events);
    }
    let mut seen = vec![0, 0];
    for tick in 1..=25u64 {
        world.pre_tick();
        interval_system(&mut world, &mut writer, tick * 50);
        for (reader, count) in readers.iter_mut().zip(seen.iter_mut()) {
            for event in reader.read(&mut world.events) {
                assert_eq!(event, Event::Interval);
                *count += 1;
            }
        }
        world.post_tick();
    }
    assert_eq!(seen, vec![1, 1]);
    assert_eq!(world.events.next_id(INTERVAL).map(|id| id.0), Some(1));
    assert_eq!(world.events.unread(INTERVAL), 0);
    assert_eq!(
        world.components.fetch_shared(LAST_UPDATE, EntityId(0)),
        Some(&Component::LastUpdate(1000))
    );
}

#[derive(Default)]
struct Counter {
    counter: usize,
}

#[test]
fn state_counts_the_ticks_of_its_system() {
    let mut world = Game::new();
    let mut state: State<Counter> = State::state();
    assert_eq!(state.deref().counter, 0);
    let mut readings = Vec::new();
    for _ in 0..5 {
        world.pre_tick();
        state.deref_mut().counter += 1;
        readings.push(state.deref().counter);
        world.post_tick();
    }
    assert_eq!(readings, vec![1, 2, 3, 4, 5]);
    assert_eq!(State::with(7u8).deref(), &7);
}

#[test]
fn two_readers_of_one_component_observe_the_same_value() {
    let mut world = Game::new();
    let entity = world.spawn(vec![(HEALTH, Component::Health(5.0))]);
    let mut schedule = world.schedule_multi_threaded();
    schedule.add_system(vec![QueryParams::new().with(shared(HEALTH)).descriptor()]);
    schedule.add_system(vec![QueryParams::new().with(shared(HEALTH)).descriptor()]);
    schedule.add_system(vec![QueryParams::new().with(exclusive(HEALTH)).descriptor()]);
    assert_eq!(schedule.waves(), vec![0, 0, 1]);

    let first = Query::new(
        &mut world.components,
        QueryParams::new().with(shared(HEALTH)),
        FilterParams::new(),
    )
    .unwrap();
    let second = Query::new(
        &mut world.components,
        QueryParams::new().with(shared(HEALTH)),
        FilterParams::new(),
    )
    .unwrap();
    assert!(Query::new(
        &mut world.components,
        QueryParams::new().with(exclusive(HEALTH)),
        FilterParams::new()
    )
    .is_err());
    for query in [&first, &second] {
        assert_eq!(query.iter(&world.entities, &world.components), vec![entity.id()]);
        assert_eq!(
            world.components.fetch_shared(HEALTH, entity.id()),
            Some(&Component::Health(5.0))
        );
    }
    first.release(&mut world.components);
    second.release(&mut world.components);
    let writer = Query::new(
        &mut world.components,
        QueryParams::new().with(exclusive(HEALTH)),
        FilterParams::new(),
    )
    .unwrap();
    *world.components.fetch_exclusive(HEALTH, entity.id()).unwrap() = Component::Health(6.0);
    writer.release(&mut world.components);
    assert_eq!(
        world.components.fetch_shared(HEALTH, entity.id()),
        Some(&Component::Health(6.0))
    );
}

#[test]
fn a_reader_handle_sees_the_counter() {
    let mut world = Game::new();
    world.add_resource(KILL_COUNTER, 12);
    let mut counter = Res::fetch(KILL_COUNTER);
    assert_eq!(counter.deref(&mut world.resources), Ok(&12));
    counter.release(&mut world.resources);
    assert_eq!(world.resources.lock_state(KILL_COUNTER), Some(0));
}

#[test]
fn bundles_of_none_one_and_two_components() {
    let mut world = Game::new();
    let none = world.spawn(());
    let one = world.spawn((HEALTH, Component::Health(3.0)));
    let two = world.spawn(((HEALTH, Component::Health(4.0)), (IMMORTAL, Component::Immortal)));
    assert!(!none.has(&world, HEALTH));
    assert!(one.has(&world, HEALTH));
    assert!(!one.has(&world, IMMORTAL));
    assert!(two.has(&world, HEALTH));
    assert!(two.has(&world, IMMORTAL));
    assert_eq!(
        world.components.fetch_shared(HEALTH, two.id()),
        Some(&Component::Health(4.0))
    );
    assert_eq!(world.components.column_count(), 2);
}

#[test]
fn a_default_world_is_empty() {
    let world = Game::default();
    assert_eq!(world.entities.iter(), vec![]);
    assert_eq!(world.components.column_count(), 0);
    assert!(world.resources.get(KILL_COUNTER).is_err());
    assert_eq!(world.events.next_id(KILLED), None);
}
