use ecs::component::TypeKey;
use ecs::event::{EventBus, EventId, EventReader, EventWriter, Events};

const KILLED: TypeKey = TypeKey(11);
const INTERVAL: TypeKey = TypeKey(12);

#[test]
fn bus_write_without_readers_is_discarded() {
    let mut bus: EventBus<&str> = EventBus::new(0, 0);
    assert_eq!(bus.insert("lost"), EventId(0));
    assert_eq!(bus.insert("lost too"), EventId(1));
    assert_eq!(bus.unread(), 0);
    assert_eq!(bus.upcoming_id(), 2);
    assert!(!bus.holds(0));
    assert_eq!(bus.get(0), None);
}

#[test]
fn bus_event_waits_for_every_reader_subscribed_at_the_write() {
    let mut bus: EventBus<u32> = EventBus::new(0, 0);
    bus.add_reader();
    bus.add_reader();
    bus.add_reader();
    assert_eq!(bus.reader_count(), 3);
    assert_eq!(bus.insert(70), EventId(0));
    bus.remove_reader();
    assert_eq!(bus.insert(71), EventId(1));
    assert_eq!(bus.unread(), 2);
    assert_eq!(bus.get(0), Some(70));
    assert_eq!(bus.get(0), Some(70));
    assert!(bus.holds(0));
    assert_eq!(bus.get(0), Some(70));
    assert!(!bus.holds(0));
    assert_eq!(bus.get(0), None);
    assert_eq!(bus.get(1), Some(71));
    assert_eq!(bus.get(1), Some(71));
    assert_eq!(bus.get(1), None);
    assert_eq!(bus.unread(), 0);
}

#[test]
fn bus_read_past_the_tail_returns_nothing() {
    let mut bus: EventBus<u32> = EventBus::new(1, 0);
    bus.insert(5);
    assert_eq!(bus.get(1), None);
    assert_eq!(bus.get(99), None);
    assert_eq!(bus.unread(), 1);
    assert_eq!(bus.upcoming_id(), 1);
}

#[test]
fn events_first_write_creates_the_bus_and_drops_the_event() {
    let mut events: Events<&str> = Events::new();
    assert_eq!(events.next_id(KILLED), None);
    assert_eq!(events.insert(KILLED, "nobody listens"), EventId(0));
    assert_eq!(events.next_id(KILLED), Some(EventId(1)));
    assert_eq!(events.readers(KILLED), 0);
    assert_eq!(events.unread(KILLED), 0);
    assert_eq!(events.insert(KILLED, "still nobody"), EventId(1));
    assert_eq!(events.unread(KILLED), 0);
    assert_eq!(events.get(KILLED, 0), None);
    assert_eq!(events.next_id(INTERVAL), None);
}

#[test]
fn events_first_subscription_creates_the_bus() {
    let mut events: Events<&str> = Events::new();
    events.add_reader(KILLED);
    assert_eq!(events.next_id(KILLED), Some(EventId(0)));
    assert_eq!(events.readers(KILLED), 1);
    events.add_reader(KILLED);
    assert_eq!(events.readers(KILLED), 2);
    events.remove_reader(KILLED);
    assert_eq!(events.readers(KILLED), 1);
    events.remove_reader(INTERVAL);
    assert_eq!(events.next_id(INTERVAL), None);
}

#[test]
fn events_of_different_types_do_not_mix() {
    let mut events: Events<u32> = Events::new();
    events.add_reader(KILLED);
    events.add_reader(INTERVAL);
    assert_eq!(events.insert(KILLED, 1), EventId(0));
    assert_eq!(events.insert(INTERVAL, 2), EventId(0));
    assert_eq!(events.insert(KILLED, 3), EventId(1));
    assert_eq!(events.unread(KILLED), 2);
    assert_eq!(events.unread(INTERVAL), 1);
    assert_eq!(events.get(INTERVAL, 0), Some(2));
    assert_eq!(events.get(INTERVAL, 0), None);
    assert_eq!(events.get(KILLED, 1), Some(3));
    assert_eq!(events.get(KILLED, 0), Some(1));
    assert_eq!(events.unread(KILLED), 0);
}

#[test]
fn reader_sees_what_is_written_after_it_started_and_nothing_older() {
    let mut events: Events<&str> = Events::new();
    let early = EventReader::new(KILLED, EventReader::state(&events, KILLED));
    early.init(&mut events);
    let mut writer = EventWriter::new(KILLED);
    assert_eq!(writer.write(&mut events, "first"), EventId(0));
    let mut late = EventReader::new(KILLED, EventReader::state(&events, KILLED));
    late.init(&mut events);
    assert_eq!(late.position(), 1);
    assert_eq!(writer.write(&mut events, "second"), EventId(1));
    assert_eq!(late.len(&events), 1);
    assert_eq!(late.read(&mut events), vec!["second"]);
    assert!(late.is_empty(&events));
    assert_eq!(late.next(&mut events), None);
    let mut early = early;
    assert_eq!(early.len(&events), 2);
    assert_eq!(early.read(&mut events), vec!["first", "second"]);
    assert_eq!(events.unread(KILLED), 0);
}

#[test]
fn reader_next_moves_the_cursor_only_on_a_hit() {
    let mut events: Events<u8> = Events::new();
    let mut reader = EventReader::new(KILLED, EventReader::state(&events, KILLED));
    reader.init(&mut events);
    assert_eq!(reader.next(&mut events), None);
    assert_eq!(reader.position(), 0);
    events.insert(KILLED, 9);
    assert_eq!(reader.next(&mut events), Some(9));
    assert_eq!(reader.position(), 1);
    assert_eq!(reader.next(&mut events), None);
    assert_eq!(reader.position(), 1);
    reader.destroy(&mut events);
    assert_eq!(events.readers(KILLED), 0);
}

#[test]
fn ten_events_written_in_one_tick_are_read_in_order_in_the_next() {
    let mut events: Events<u32> = Events::new();
    let mut reader = EventReader::new(INTERVAL, EventReader::state(&events, INTERVAL));
    reader.init(&mut events);
    let mut writer = EventWriter::new(INTERVAL);
    for n in 0..10usize {
        assert_eq!(writer.write(&mut events, 100 + n as u32), EventId(n));
    }
    assert_eq!(events.unread(INTERVAL), 10);
    assert_eq!(reader.len(&events), 10);
    let mut seen = Vec::new();
    while let Some(event) = reader.next(&mut events) {
        seen.push(event);
    }
    assert_eq!(seen, vec![100, 101, 102, 103, 104, 105, 106, 107, 108, 109]);
    assert_eq!(events.unread(INTERVAL), 0);
    assert_eq!(reader.position(), 10);
}

#[test]
fn read_stops_at_the_first_missing_event() {
    let mut events: Events<u32> = Events::new();
    let mut a = EventReader::new(KILLED, EventReader::state(&events, KILLED));
    a.init(&mut events);
    events.insert(KILLED, 1);
    events.insert(KILLED, 2);
    assert_eq!(events.get(KILLED, 0), Some(1));
    assert_eq!(a.read(&mut events), Vec::<u32>::new());
    assert_eq!(a.position(), 0);
    assert_eq!(events.unread(KILLED), 1);
}
