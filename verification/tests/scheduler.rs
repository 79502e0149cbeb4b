use puck::app::runner::{delete_range, reconcile_events, Scheduler};
use puck::app::{App, IdSeed, SimSettings, TreeMap};
use puck::event::{CombinedSink, Event, Sink};
use puck::Tick;

/// An entity that logs what it takes and emits what it is told to.
#[derive(Clone, Debug, PartialEq)]
struct Probe {
    log: Vec<u32>,
    routes: Vec<ProbeEvent>,
    mine: Vec<u32>,
    seen_ticks: Vec<u64>,
    seen_table_len: Vec<usize>,
}

type ProbeEvent = Event<u64, Probe, u32, u32>;

fn quiet() -> Probe {
    Probe { log: Vec::new(), routes: Vec::new(), mine: Vec::new(), seen_ticks: Vec::new(), seen_table_len: Vec::new() }
}

fn routing(routes: Vec<ProbeEvent>) -> Probe {
    Probe { routes, ..quiet() }
}

struct ProbeApp;

impl App for ProbeApp {
    type Entity = Probe;
    type EntityEvent = u32;
    type RenderEvent = u32;

    fn handle_entity_event(event: &u32, id: &u64, entity: &mut Probe, sink: &mut Sink<ProbeEvent>) {
        entity.log.push(*event);
        if *event >= 500 && *event < 1000 {
            sink.push(Event::RenderEvent(*event + *id as u32));
        }
    }

    fn simulate(
        time: Tick,
        entities: &TreeMap<u64, Probe>,
        _id: &u64,
        entity: &Probe,
        sink: &mut CombinedSink<u32, ProbeEvent>,
    ) {
        for event in &entity.routes {
            sink.routed.push(event.clone());
        }
        for event in &entity.mine {
            sink.mine.push(*event);
        }
        sink.mine.push(1_000_000 + time.n as u32);
        sink.mine.push(2_000_000 + entities.len() as u32);
    }

    fn modify_id(id: &u64, seed: IdSeed) -> Option<u64> {
        if *id >= 1000 {
            Some(2000 + seed)
        } else {
            None
        }
    }

    fn clone_entity(entity: &Probe) -> Probe {
        entity.clone()
    }
}

fn scheduler_over(entries: Vec<(u64, Probe)>, tick_rate: u64) -> Scheduler<ProbeApp> {
    let mut table = TreeMap::new();
    for (id, probe) in entries {
        table.insert(id, probe);
    }
    Scheduler::new(SimSettings { tick_rate }, table).unwrap()
}

fn ids(scheduler: &Scheduler<ProbeApp>) -> Vec<u64> {
    scheduler.entities().keys().copied().collect()
}

/// The log without the two marks that every simulation leaves.
fn taken(scheduler: &Scheduler<ProbeApp>, id: u64) -> Vec<u32> {
    scheduler.entities()[&id].log.iter().copied().filter(|event| *event < 1_000_000).collect()
}

#[test]
fn new_refuses_a_tick_rate_of_zero() {
    assert!(Scheduler::<ProbeApp>::new(SimSettings { tick_rate: 0 }, TreeMap::new()).is_none());
}

#[test]
fn new_refuses_more_than_a_tick_per_nanosecond() {
    assert!(Scheduler::<ProbeApp>::new(SimSettings { tick_rate: 1_000_000_001 }, TreeMap::new()).is_none());
    assert!(Scheduler::<ProbeApp>::new(SimSettings { tick_rate: 1_000_000_000 }, TreeMap::new()).is_some());
}

#[test]
fn new_starts_at_tick_zero_with_nothing_queued() {
    let scheduler = scheduler_over(vec![(4, quiet())], 60);
    assert_eq!(scheduler.tick_number(), 0);
    assert_eq!(scheduler.id_seed(), 0);
    assert!(scheduler.is_running());
    assert!(scheduler.pending().is_empty());
    assert_eq!(ids(&scheduler), vec![4]);
    let time = scheduler.render_tick();
    assert_eq!(time.n, 0);
    assert_eq!(time.accu_ns, 0);
    assert_eq!(time.tick_duration_ns, 16_666_666);
    assert_eq!(time.tick_rate, 60);
}

#[test]
fn less_than_a_period_makes_no_tick_and_is_carried_over() {
    let mut scheduler = scheduler_over(vec![(1, quiet())], 10);
    let frame = scheduler.advance(99_999_999, Vec::new());
    assert_eq!(frame.render_tick.n, 0);
    assert_eq!(frame.render_tick.accu_ns, 99_999_999);
    let frame = scheduler.advance(1, Vec::new());
    assert_eq!(frame.render_tick.n, 1);
    assert_eq!(frame.render_tick.accu_ns, 0);
}

#[test]
fn a_whole_period_makes_exactly_one_tick() {
    let mut scheduler = scheduler_over(vec![(1, quiet())], 10);
    let frame = scheduler.advance(100_000_000, Vec::new());
    assert_eq!(frame.render_tick.n, 1);
    assert_eq!(frame.render_tick.accu_ns, 0);
}

#[test]
fn ticks_are_the_whole_periods_and_the_rest_stays() {
    let mut scheduler = scheduler_over(vec![(1, quiet())], 1000);
    let frame = scheduler.advance(7_654_321, Vec::new());
    assert_eq!(frame.render_tick.n, 7);
    assert_eq!(frame.render_tick.accu_ns, 654_321);
    let frame = scheduler.advance(2_345_679, Vec::new());
    assert_eq!(frame.render_tick.n, 10);
    assert_eq!(frame.render_tick.accu_ns, 0);
    assert_eq!(scheduler.tick_number(), 10);
}

#[test]
fn simulate_sees_the_tick_number_and_the_duration() {
    let mut scheduler = scheduler_over(vec![(1, quiet())], 10);
    scheduler.advance(300_000_000, Vec::new());
    let log = &scheduler.entities()[&1].log;
    assert_eq!(log, &vec![1_000_000, 2_000_001, 1_000_001, 2_000_001, 1_000_002, 2_000_001]);
}

#[test]
fn pacing_does_not_change_the_outcome() {
    let build = || {
        scheduler_over(
            vec![
                (1, routing(vec![Event::EntityEvent(2, 7), Event::SpawnEvent(1000, quiet())])),
                (2, routing(vec![Event::EntityEvent(1, 8), Event::RenderEvent(3)])),
            ],
            100,
        )
    };
    let input = vec![Event::EntityEvent(1, 5), Event::Delete(77)];

    let mut joint = build();
    let whole = joint.advance(57_000_000, input.clone());

    let mut paced = build();
    let mut shown = paced.advance(3_000_000, input.clone()).render_events;
    shown.extend(paced.advance(20_000_000, Vec::new()).render_events);
    shown.extend(paced.advance(1, Vec::new()).render_events);
    let last = paced.advance(33_999_999, Vec::new());
    shown.extend(last.render_events);

    assert_eq!(paced.entities(), joint.entities());
    assert_eq!(paced.pending(), joint.pending());
    assert_eq!(paced.tick_number(), joint.tick_number());
    assert_eq!(paced.tick_number(), 5);
    assert_eq!(paced.id_seed(), joint.id_seed());
    assert_eq!(last.render_tick.accu_ns, whole.render_tick.accu_ns);
    assert_eq!(shown, whole.render_events);
}

#[test]
fn two_runs_give_the_same_tables_after_each_tick() {
    let build = || {
        scheduler_over(
            vec![(3, routing(vec![Event::EntityEvent(9, 1), Event::SpawnEvent(1500, quiet())])), (9, quiet())],
            50,
        )
    };
    let mut first = build();
    let mut second = build();
    for _ in 0..6 {
        first.tick();
        second.tick();
        assert_eq!(first.entities(), second.entities());
        assert_eq!(first.pending(), second.pending());
    }
}

#[test]
fn targeted_events_arrive_in_emission_order_at_the_next_tick() {
    let mut scheduler = scheduler_over(
        vec![(1, routing(vec![Event::EntityEvent(2, 10), Event::EntityEvent(2, 20)])), (2, quiet())],
        10,
    );
    scheduler.tick();
    assert_eq!(taken(&scheduler, 2), Vec::<u32>::new());
    scheduler.tick();
    assert_eq!(taken(&scheduler, 2), vec![10, 20]);
}

#[test]
fn events_of_several_senders_arrive_in_ascending_order_of_sender() {
    let mut scheduler = scheduler_over(
        vec![
            (5, routing(vec![Event::EntityEvent(1, 50), Event::EntityEvent(1, 51)])),
            (3, routing(vec![Event::EntityEvent(1, 30)])),
            (1, quiet()),
        ],
        10,
    );
    scheduler.tick();
    scheduler.tick();
    assert_eq!(taken(&scheduler, 1), vec![30, 50, 51]);
}

#[test]
fn targeted_events_are_taken_before_the_entity_is_simulated() {
    let mut scheduler = scheduler_over(vec![(1, quiet())], 10);
    scheduler.route(vec![Event::EntityEvent(1, 4), Event::EntityEvent(1, 5)]);
    scheduler.tick();
    assert_eq!(scheduler.entities()[&1].log, vec![4, 5, 1_000_000, 2_000_001]);
}

#[test]
fn self_events_are_in_the_entity_at_the_end_of_the_same_tick() {
    let mut scheduler = scheduler_over(vec![(8, Probe { mine: vec![41, 42], ..quiet() })], 10);
    scheduler.tick();
    assert_eq!(taken(&scheduler, 8), vec![41, 42]);
    assert_eq!(scheduler.tick_number(), 1);
}

#[test]
fn what_a_self_event_emits_is_routed_at_the_next_tick() {
    let mut scheduler = scheduler_over(vec![(8, Probe { mine: vec![600], ..quiet() })], 10);
    let first = scheduler.tick();
    assert!(first.is_empty());
    assert_eq!(scheduler.pending(), &vec![Event::RenderEvent(608)]);
    let second = scheduler.tick();
    assert_eq!(second, vec![608]);
}

#[test]
fn range_deletion_takes_both_bounds_and_nothing_else() {
    let mut scheduler = scheduler_over((1..=10).map(|id| (id, quiet())).collect(), 10);
    scheduler.route(vec![Event::DeleteRange(3, 7)]);
    scheduler.tick();
    assert_eq!(ids(&scheduler), vec![1, 2, 8, 9, 10]);
}

#[test]
fn range_deletion_with_the_bounds_reversed_removes_nothing() {
    let mut scheduler = scheduler_over((1..=10).map(|id| (id, quiet())).collect(), 10);
    scheduler.route(vec![Event::DeleteRange(7, 3)]);
    scheduler.tick();
    assert_eq!(ids(&scheduler), (1..=10).collect::<Vec<u64>>());
}

#[test]
fn range_deletion_of_one_identifier() {
    let mut scheduler = scheduler_over((1..=4).map(|id| (id, quiet())).collect(), 10);
    scheduler.route(vec![Event::DeleteRange(2, 2), Event::DeleteRange(0, 0), Event::DeleteRange(u64::MAX, u64::MAX)]);
    scheduler.tick();
    assert_eq!(ids(&scheduler), vec![1, 3, 4]);
}

#[test]
fn delete_range_on_a_table() {
    let mut table: TreeMap<u64, char> = TreeMap::new();
    for (id, value) in [(1, 'a'), (5, 'b'), (6, 'c'), (9, 'd')] {
        table.insert(id, value);
    }
    delete_range(&mut table, 5, 8);
    assert_eq!(table.into_iter().collect::<Vec<_>>(), vec![(1, 'a'), (9, 'd')]);
}

#[test]
fn delete_range_over_everything() {
    let mut table: TreeMap<u64, u8> = TreeMap::new();
    table.insert(0, 1);
    table.insert(u64::MAX, 2);
    delete_range(&mut table, 0, u64::MAX);
    assert!(table.is_empty());
}

#[test]
fn delete_removes_one_entity_and_ignores_a_missing_one() {
    let mut scheduler = scheduler_over(vec![(1, quiet()), (2, quiet())], 10);
    scheduler.route(vec![Event::Delete(2), Event::Delete(40)]);
    scheduler.tick();
    assert_eq!(ids(&scheduler), vec![1]);
}

#[test]
fn a_dangling_target_changes_nothing() {
    let build = || scheduler_over(vec![(1, routing(vec![Event::EntityEvent(1, 3)])), (2, quiet())], 10);
    let mut with = build();
    let mut without = build();
    with.route(vec![Event::EntityEvent(77, 500)]);
    let shown = with.tick();
    without.tick();
    assert!(shown.is_empty());
    assert_eq!(with.entities(), without.entities());
    assert_eq!(with.pending(), without.pending());
    assert_eq!(with.id_seed(), without.id_seed());
    assert!(with.is_running());
}

#[test]
fn an_event_for_an_entity_deleted_in_the_same_queue_is_dropped() {
    let mut scheduler = scheduler_over(vec![(1, quiet()), (2, quiet())], 10);
    scheduler.route(vec![Event::EntityEvent(2, 9), Event::Delete(2)]);
    scheduler.tick();
    assert_eq!(ids(&scheduler), vec![1]);
    assert_eq!(taken(&scheduler, 1), Vec::<u32>::new());
}

#[test]
fn an_event_for_an_entity_spawned_later_in_the_queue_is_taken() {
    let mut scheduler = scheduler_over(vec![], 10);
    scheduler.route(vec![Event::EntityEvent(6, 9), Event::SpawnEvent(6, quiet())]);
    scheduler.tick();
    assert_eq!(taken(&scheduler, 6), vec![9]);
}

#[test]
fn a_rewritten_spawn_lands_at_the_new_identifier_and_advances_the_seed() {
    let mut scheduler = scheduler_over(vec![], 10);
    scheduler.route(vec![Event::SpawnEvent(1000, quiet())]);
    scheduler.tick();
    assert_eq!(ids(&scheduler), vec![2000]);
    assert_eq!(scheduler.id_seed(), 1);
}

#[test]
fn each_rewritten_spawn_advances_the_seed_once() {
    let mut scheduler = scheduler_over(vec![], 10);
    scheduler.route(vec![
        Event::SpawnEvent(1000, quiet()),
        Event::SpawnEvent(5, quiet()),
        Event::SpawnEvent(1000, quiet()),
        Event::SpawnEvent(1234, quiet()),
    ]);
    scheduler.tick();
    assert_eq!(ids(&scheduler), vec![5, 2000, 2001, 2002]);
    assert_eq!(scheduler.id_seed(), 3);
}

#[test]
fn a_spawn_that_is_not_rewritten_leaves_the_seed() {
    let mut scheduler = scheduler_over(vec![], 10);
    scheduler.route(vec![Event::SpawnEvent(999, quiet())]);
    scheduler.tick();
    assert_eq!(ids(&scheduler), vec![999]);
    assert_eq!(scheduler.id_seed(), 0);
}

#[test]
fn a_spawn_overwrites_the_entity_at_its_identifier() {
    let mut scheduler = scheduler_over(vec![(3, Probe { mine: vec![1], ..quiet() })], 10);
    scheduler.route(vec![Event::SpawnEvent(3, quiet())]);
    scheduler.tick();
    assert_eq!(taken(&scheduler, 3), Vec::<u32>::new());
}

#[test]
fn a_spawned_entity_is_simulated_in_the_tick_that_spawns_it() {
    let mut scheduler = scheduler_over(vec![], 10);
    scheduler.route(vec![Event::SpawnEvent(3, quiet())]);
    scheduler.tick();
    assert_eq!(scheduler.entities()[&3].log, vec![1_000_000, 2_000_001]);
}

#[test]
fn shutdown_stops_the_ticks_after_the_tick_that_reconciles_it() {
    let mut scheduler = scheduler_over(vec![(1, quiet())], 10);
    let frame = scheduler.advance(1_000_000_000, vec![Event::Shutdown, Event::SpawnEvent(2, quiet())]);
    assert!(!scheduler.is_running());
    assert_eq!(scheduler.tick_number(), 1);
    assert_eq!(ids(&scheduler), vec![1, 2]);
    assert_eq!(frame.render_tick.n, 1);
    assert_eq!(frame.render_tick.accu_ns, 900_000_000);
}

#[test]
fn a_scheduler_that_has_shut_down_stays_as_it_is() {
    let mut scheduler = scheduler_over(vec![(1, quiet())], 10);
    scheduler.advance(100_000_000, vec![Event::Shutdown]);
    let table = scheduler.entities().clone();
    let frame = scheduler.advance(500_000_000, vec![Event::SpawnEvent(9, quiet()), Event::RenderEvent(1)]);
    assert!(frame.render_events.is_empty());
    assert_eq!(frame.render_tick.n, 1);
    assert_eq!(frame.render_tick.accu_ns, 0);
    assert_eq!(scheduler.entities(), &table);
    assert!(scheduler.pending().is_empty());
}

#[test]
fn a_shutdown_routed_by_an_entity_stops_the_scheduler_one_tick_later() {
    let mut scheduler = scheduler_over(vec![(1, routing(vec![Event::Shutdown]))], 10);
    scheduler.advance(1_000_000_000, Vec::new());
    assert_eq!(scheduler.tick_number(), 2);
    assert!(!scheduler.is_running());
}

#[test]
fn render_events_come_out_once_in_emission_order() {
    let mut scheduler = scheduler_over(vec![(1, routing(vec![Event::RenderEvent(11), Event::RenderEvent(12)]))], 10);
    let frame = scheduler.advance(300_000_000, vec![Event::RenderEvent(1), Event::RenderEvent(2)]);
    assert_eq!(frame.render_events, vec![1, 2, 11, 12, 11, 12]);
    let frame = scheduler.advance(0, Vec::new());
    assert!(frame.render_events.is_empty());
}

#[test]
fn input_waits_in_the_queue_until_a_tick_comes() {
    let mut scheduler = scheduler_over(vec![], 10);
    let frame = scheduler.advance(10, vec![Event::RenderEvent(5), Event::SpawnEvent(1, quiet())]);
    assert!(frame.render_events.is_empty());
    assert_eq!(scheduler.pending().len(), 2);
    assert!(ids(&scheduler).is_empty());
    let frame = scheduler.advance(100_000_000, vec![Event::RenderEvent(6)]);
    assert_eq!(frame.render_events, vec![5, 6]);
    assert_eq!(ids(&scheduler), vec![1]);
}

#[test]
fn route_queues_behind_what_waits() {
    let mut scheduler = scheduler_over(vec![], 10);
    scheduler.route(vec![Event::Delete(1)]);
    scheduler.route(vec![Event::Delete(2), Event::Shutdown]);
    assert_eq!(scheduler.pending(), &vec![Event::Delete(1), Event::Delete(2), Event::Shutdown]);
}

#[test]
fn every_entity_sees_the_same_snapshot() {
    let mut scheduler = scheduler_over(vec![(1, routing(vec![Event::SpawnEvent(50, quiet())])), (2, quiet())], 10);
    scheduler.tick();
    assert_eq!(scheduler.entities()[&1].log, vec![1_000_000, 2_000_002]);
    assert_eq!(scheduler.entities()[&2].log, vec![1_000_000, 2_000_002]);
    scheduler.tick();
    assert_eq!(scheduler.entities()[&50].log, vec![1_000_001, 2_000_003]);
    assert_eq!(scheduler.entities()[&2].log[2..], [1_000_001, 2_000_003]);
}

#[test]
fn reconcile_events_sorts_the_queue_by_kind() {
    let mut table: TreeMap<u64, Probe> = TreeMap::new();
    table.insert(1, quiet());
    table.insert(2, quiet());
    let mut seed: IdSeed = 7;
    let pending = reconcile_events::<ProbeApp>(
        vec![
            Event::RenderEvent(4),
            Event::EntityEvent(2, 20),
            Event::SpawnEvent(1000, quiet()),
            Event::EntityEvent(1, 10),
            Event::Delete(1),
            Event::EntityEvent(2, 21),
            Event::RenderEvent(5),
        ],
        &mut table,
        &mut seed,
    );
    assert!(!pending.shutdown);
    assert_eq!(pending.render_events, vec![4, 5]);
    assert_eq!(seed, 8);
    assert_eq!(table.keys().copied().collect::<Vec<_>>(), vec![2, 2007]);
    assert_eq!(pending.targeted.len(), 3);
    assert_eq!(pending.targeted.positions(2), Some(&vec![0, 2]));
    assert_eq!(pending.targeted.positions(1), Some(&vec![1]));
    assert_eq!(pending.targeted.positions(3), None);
    assert_eq!(*pending.targeted.payload(2), 21);
}

#[test]
fn the_seed_wraps_around() {
    let mut table: TreeMap<u64, Probe> = TreeMap::new();
    let mut seed: IdSeed = u64::MAX;
    reconcile_events::<ProbeApp>(vec![Event::SpawnEvent(1000, quiet())], &mut table, &mut seed);
    assert_eq!(seed, 0);
}

#[test]
fn ids_in_range_are_ascending_and_take_both_bounds() {
    let mut table: TreeMap<u64, u8> = TreeMap::new();
    for id in [9, 2, 7, 3, 5, 1] {
        table.insert(id, 0);
    }
    assert_eq!(puck::app::runner::ids_in_range(&table, 3, 7), vec![3, 5, 7]);
    assert_eq!(puck::app::runner::ids_in_range(&table, 4, 4), Vec::<u64>::new());
    assert_eq!(puck::app::runner::ids_in_range(&table, 0, u64::MAX), vec![1, 2, 3, 5, 7, 9]);
    assert_eq!(puck::app::runner::ids_in_range(&table, 7, 3), Vec::<u64>::new());
}

#[test]
fn ids_in_order_are_all_the_ids_ascending() {
    let mut table: TreeMap<u64, u8> = TreeMap::new();
    assert_eq!(puck::app::runner::ids_in_order(&table), Vec::<u64>::new());
    for id in [u64::MAX, 2, 0, 40] {
        table.insert(id, 0);
    }
    assert_eq!(puck::app::runner::ids_in_order(&table), vec![0, 2, 40, u64::MAX]);
}

#[test]
fn entities_are_stepped_in_ascending_order() {
    let mut scheduler = scheduler_over(
        vec![
            (30, routing(vec![Event::RenderEvent(30)])),
            (10, routing(vec![Event::RenderEvent(10)])),
            (20, routing(vec![Event::RenderEvent(20)])),
        ],
        10,
    );
    scheduler.tick();
    assert_eq!(scheduler.pending(), &vec![Event::RenderEvent(10), Event::RenderEvent(20), Event::RenderEvent(30)]);
}

#[test]
fn a_tick_on_a_scheduler_that_has_shut_down_still_simulates() {
    let mut scheduler = scheduler_over(vec![(1, quiet())], 10);
    scheduler.route(vec![Event::Shutdown]);
    scheduler.tick();
    assert!(!scheduler.is_running());
    scheduler.tick();
    assert_eq!(scheduler.tick_number(), 2);
    assert!(!scheduler.is_running());
}

#[test]
fn the_types_of_the_event_module_are_those_of_the_app_module() {
    let mut sink: puck::app::Sink<puck::app::Event<u64, u8, u8, u8>> = Sink::empty();
    sink.push(Event::Shutdown);
    assert_eq!(sink.events, vec![puck::app::Event::Shutdown]);
}
