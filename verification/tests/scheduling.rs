use ecs::component::TypeKey;
use ecs::event::{EventReader, EventWriter};
use ecs::query::QueryParams;
use ecs::resource::{Res, ResMut};
use ecs::scheduler::{
    group_by_wave, BorrowedTypeDescriptor, GraphEdge, MultiThreadedExecutor, Schedule,
    ScheduleGraph, SingleThreadedExecutor, SystemDescriptor, SystemId, SystemParamDescriptor,
};
use ecs::state::State;
use ecs::system::SystemReturnable;

const HEALTH: TypeKey = TypeKey(1);
const NAME: TypeKey = TypeKey(2);
const COUNTER: TypeKey = TypeKey(21);

fn query(requests: &[(TypeKey, bool)]) -> SystemParamDescriptor {
    let mut params = QueryParams::new();
    for (type_id, exclusive) in requests {
        params = params.with(BorrowedTypeDescriptor { exclusive: *exclusive, type_id: *type_id });
    }
    params.descriptor()
}

fn system(deps: Vec<SystemParamDescriptor>) -> SystemDescriptor {
    SystemDescriptor { id: 0, deps }
}

#[test]
fn accesses_are_the_union_of_the_parameters() {
    let descriptor = system(vec![
        SystemParamDescriptor::Unit,
        query(&[(NAME, true), (HEALTH, false)]),
        EventReader::descriptor(),
        Res::descriptor(COUNTER),
        EventWriter::descriptor(),
        State::<u32>::descriptor(),
        ResMut::descriptor(TypeKey(22)),
    ]);
    assert_eq!(
        descriptor.accesses(),
        vec![(1, false), (2, true), (21, false), (22, true)]
    );
    assert_eq!(system(vec![]).accesses(), vec![]);
}

#[test]
fn shared_accesses_to_one_type_do_not_conflict() {
    let a = system(vec![query(&[(HEALTH, false)])]);
    let b = system(vec![query(&[(HEALTH, false), (NAME, false)])]);
    assert!(!a.conflicts(&b));
    assert!(!b.conflicts(&a));
}

#[test]
fn an_exclusive_access_conflicts_with_any_access_to_the_same_type() {
    let reader = system(vec![query(&[(HEALTH, false)])]);
    let writer = system(vec![query(&[(HEALTH, true)])]);
    let other = system(vec![query(&[(NAME, true)])]);
    assert!(reader.conflicts(&writer));
    assert!(writer.conflicts(&reader));
    assert!(writer.conflicts(&writer));
    assert!(!writer.conflicts(&other));
    assert!(!reader.conflicts(&other));
}

#[test]
fn resources_conflict_like_components() {
    let reads = system(vec![Res::descriptor(COUNTER)]);
    let writes = system(vec![ResMut::descriptor(COUNTER)]);
    let events = system(vec![EventReader::descriptor(), EventWriter::descriptor()]);
    assert!(!reads.conflicts(&reads));
    assert!(reads.conflicts(&writes));
    assert!(writes.conflicts(&writes));
    assert!(!events.conflicts(&writes));
    assert!(!events.conflicts(&events));
}

#[test]
fn graph_records_nodes_and_edges() {
    let mut graph = ScheduleGraph::new();
    graph.add_node(SystemId(0));
    graph.add_node(SystemId(1));
    graph.add_node(SystemId(2));
    graph.add_edge(GraphEdge { from: SystemId(0), to: SystemId(1) });
    graph.add_edge(GraphEdge::from((SystemId(1), SystemId(2))));
    graph.add_edge(GraphEdge { from: SystemId(0), to: SystemId(1) });
    assert_eq!(graph.node_count(), 3);
    assert_eq!(graph.edge_count(), 3);
    assert!(graph.connects(SystemId(1), SystemId(0)));
    assert!(graph.connects(SystemId(1), SystemId(2)));
    assert!(!graph.connects(SystemId(0), SystemId(2)));
    graph.remove_edge(GraphEdge { from: SystemId(0), to: SystemId(1) });
    assert_eq!(graph.edge_count(), 1);
    assert!(!graph.connects(SystemId(0), SystemId(1)));
    assert!(graph.connects(SystemId(2), SystemId(1)));
    graph.remove_edge(GraphEdge { from: SystemId(2), to: SystemId(1) });
    assert_eq!(graph.edge_count(), 1);
}

#[test]
fn optimize_gives_each_node_the_lowest_free_slot() {
    let mut graph = ScheduleGraph::new();
    for id in 0..5 {
        graph.add_node(SystemId(id));
    }
    graph.add_edge(GraphEdge { from: SystemId(0), to: SystemId(1) });
    graph.add_edge(GraphEdge { from: SystemId(2), to: SystemId(0) });
    graph.add_edge(GraphEdge { from: SystemId(1), to: SystemId(2) });
    graph.add_edge(GraphEdge { from: SystemId(3), to: SystemId(2) });
    assert_eq!(graph.optimize(), vec![0, 1, 2, 0, 0]);
    assert_eq!(ScheduleGraph::new().optimize(), vec![]);
}

#[test]
fn systems_get_their_position_as_id() {
    let mut schedule: Schedule<SingleThreadedExecutor> = Schedule::new();
    assert_eq!(schedule.add_system(vec![]), SystemId(0));
    assert_eq!(schedule.add_async_system(vec![Res::descriptor(COUNTER)]), SystemId(1));
    assert_eq!(schedule.add_system(vec![query(&[(HEALTH, true)])]), SystemId(2));
    assert_eq!(schedule.len(), 3);
}

#[test]
fn schedule_graph_joins_the_systems_that_conflict() {
    let mut schedule: Schedule<MultiThreadedExecutor> = Schedule::new();
    schedule.add_system(vec![query(&[(HEALTH, true)])]);
    schedule.add_system(vec![query(&[(NAME, false)])]);
    schedule.add_system(vec![query(&[(HEALTH, false), (NAME, true)])]);
    let graph = schedule.schedule_graph();
    assert_eq!(graph.node_count(), 3);
    assert_eq!(graph.edge_count(), 2);
    assert!(graph.connects(SystemId(0), SystemId(2)));
    assert!(graph.connects(SystemId(1), SystemId(2)));
    assert!(!graph.connects(SystemId(0), SystemId(1)));
}

#[test]
fn two_exclusive_systems_on_one_type_run_in_different_waves() {
    let mut schedule: Schedule<MultiThreadedExecutor> = Schedule::new();
    schedule.add_system(vec![query(&[(HEALTH, true)])]);
    schedule.add_system(vec![query(&[(HEALTH, true)])]);
    assert_eq!(schedule.waves(), vec![0, 1]);
}

#[test]
fn readers_share_a_wave_and_the_writer_gets_its_own() {
    let mut schedule: Schedule<MultiThreadedExecutor> = Schedule::new();
    schedule.add_system(vec![query(&[(HEALTH, false)])]);
    schedule.add_system(vec![query(&[(HEALTH, false)])]);
    schedule.add_system(vec![query(&[(HEALTH, true)])]);
    schedule.add_system(vec![EventWriter::descriptor(), State::<u8>::descriptor()]);
    let waves = schedule.waves();
    assert_eq!(waves, vec![0, 0, 1, 0]);
}

#[test]
fn no_wave_holds_two_systems_that_conflict() {
    let mut schedule: Schedule<SingleThreadedExecutor> = Schedule::new();
    let systems = vec![
        vec![(HEALTH, true)],
        vec![(NAME, true), (HEALTH, false)],
        vec![(NAME, false)],
        vec![(COUNTER, true)],
        vec![(NAME, false), (COUNTER, false)],
        vec![(HEALTH, false)],
    ];
    let mut descriptors = Vec::new();
    for requests in &systems {
        schedule.add_system(vec![query(requests)]);
        descriptors.push(system(vec![query(requests)]));
    }
    let waves = schedule.waves();
    assert_eq!(waves, vec![0, 1, 0, 0, 2, 1]);
    for i in 0..descriptors.len() {
        for j in 0..descriptors.len() {
            if i != j && descriptors[i].conflicts(&descriptors[j]) {
                assert_ne!(waves[i], waves[j]);
            }
        }
    }
}

#[test]
fn a_system_that_returns_nothing_is_not_awaited() {
    assert!(!<() as SystemReturnable>::is_async());
}

#[test]
fn group_by_wave_lists_each_wave_in_ascending_order() {
    assert_eq!(
        group_by_wave(&vec![0, 1, 0, 0, 2, 1]),
        vec![
            vec![SystemId(0), SystemId(2), SystemId(3)],
            vec![SystemId(1), SystemId(5)],
            vec![SystemId(4)],
        ]
    );
    assert_eq!(group_by_wave(&vec![]), Vec::<Vec<SystemId>>::new());
    assert_eq!(group_by_wave(&vec![1, 1]), vec![vec![], vec![SystemId(0), SystemId(1)]]);
}

#[test]
fn batches_run_every_system_once_without_conflicts() {
    let mut schedule: Schedule<MultiThreadedExecutor> = Schedule::new();
    assert_eq!(schedule.batches(), Vec::<Vec<SystemId>>::new());
    schedule.add_system(vec![query(&[(HEALTH, false)])]);
    schedule.add_system(vec![query(&[(HEALTH, false)])]);
    schedule.add_system(vec![query(&[(HEALTH, true)])]);
    schedule.add_system(vec![ResMut::descriptor(COUNTER)]);
    schedule.add_system(vec![ResMut::descriptor(COUNTER), query(&[(HEALTH, true)])]);
    assert_eq!(
        schedule.batches(),
        vec![
            vec![SystemId(0), SystemId(1), SystemId(3)],
            vec![SystemId(2)],
            vec![SystemId(4)],
        ]
    );
}
