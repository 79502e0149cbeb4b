//! The scheduler: a fixed time step over an entity table.

use vstd::prelude::*;
use std::ops::Bound::Included;
use vstd::std_specs::btree::{increasing_seq, spec_btree_map_iter};
use vstd::std_specs::cmp::OrdSpec;
use vstd::std_specs::iter::IteratorSpec;
use crate::app::model::{
    ascending, fold_all, id_range, lemma_ordered_ids, lemma_period_positive, ordered_ids, period_ns,
    reconcile, routed_by,
    stepped, stepped_table, targeted_at, unreconciled, Reconciled, SchedulerState,
    NANOSECONDS_IN_A_SECOND,
};
use crate::app::targeted::{
    lemma_payloads_at_positions, lemma_positions_in_bounds, positions_of, TargetedEvents,
};
use crate::app::{App, IdSeed, Routed, SimSettings, TreeMap};
use crate::event::{CombinedSink, Event, Sink};
use crate::{RenderTick, Tick};

verus! {

/// `BTreeMap::range` over both bounds included: the keys of the table that
/// lie in the range, in ascending order. With `from` above `to` the call
/// panics, so that is left out.
#[verifier::external_body]
fn keys_in_range<V>(table: &TreeMap<u64, V>, from: u64, to: u64) -> (keys: Vec<u64>)
    requires
        from <= to,
    ensures
        ascending(keys@),
        keys@.to_set() == table@.dom().intersect(id_range(from, to)),
{
    table.range((Included(from), Included(to))).map(|entry| *entry.0).collect()
}

/// The identifiers of the table that lie between `from` and `to`, both
/// included, in ascending order. With `from` above `to` there are none.
pub fn ids_in_range<V>(table: &TreeMap<u64, V>, from: u64, to: u64) -> (ids: Vec<u64>)
    ensures
        ascending(ids@),
        ids@.to_set() == table@.dom().intersect(id_range(from, to)),
{
    if from <= to {
        keys_in_range(table, from, to)
    } else {
        let ids: Vec<u64> = Vec::new();
        assert(ids@.to_set() =~= table@.dom().intersect(id_range(from, to)));
        ids
    }
}

/// Removes every entity whose identifier lies between `from` and `to`, both
/// included. The identifiers are collected first and removed afterwards.
pub fn delete_range<V>(table: &mut TreeMap<u64, V>, from: u64, to: u64)
    ensures
        final(table)@ == old(table)@.remove_keys(id_range(from, to)),
{
    let ghost before = table@;
    let to_delete = ids_in_range(table, from, to);
    let mut i: usize = 0;
    while i < to_delete.len()
        invariant
            0 <= i <= to_delete.len(),
            table@ == before.remove_keys(to_delete@.take(i as int).to_set()),
        decreases to_delete.len() - i,
    {
        let id = to_delete[i];
        table.remove(&id);
        proof {
            let done = to_delete@.take(i as int);
            let more = to_delete@.take(i + 1);
            assert(more == done.push(id));
            assert forall|other: u64| more.to_set().contains(other) <==> done.to_set().contains(
                other,
            ) || other == id by {
                if done.contains(other) {
                    let k = choose|k: int| 0 <= k < done.len() && done[k] == other;
                    assert(more[k] == other);
                }
                if other == id {
                    assert(more[i as int] == id);
                }
            }
            assert(table@ =~= before.remove_keys(more.to_set()));
        }
        i = i + 1;
    }
    proof {
        assert(to_delete@.take(to_delete.len() as int) == to_delete@);
        assert(table@ =~= before.remove_keys(id_range(from, to)));
    }
}

/// What is left of a queue of routed events once the spawns and deletions
/// have gone into the table.
pub struct Reconciliation<A: App> {
    /// Whether a shutdown was among the events.
    pub shutdown: bool,
    /// The targeted events, for the entities to take in this tick.
    pub targeted: TargetedEvents<A::EntityEvent>,
    /// The render events, for the presentation.
    pub render_events: Vec<A::RenderEvent>,
}

impl<A: App> Reconciliation<A> {
    /// Whether this and the table and seed beside it are what `r` says.
    pub open spec fn matches(
        &self,
        entities: Map<u64, A::Entity>,
        id_seed: IdSeed,
        r: Reconciled<A>,
    ) -> bool {
        &&& entities == r.entities
        &&& id_seed == r.id_seed
        &&& self.shutdown == r.shutdown
        &&& self.targeted.wf()
        &&& self.targeted@ == r.targeted
        &&& self.render_events@ == r.render_events
    }
}

/// Applies the routed events to the table, in emission order: spawns,
/// deletions and range deletions at once; targeted events are grouped by
/// target and render events queued, both for later.
pub fn reconcile_events<A: App>(
    events: Vec<Routed<A>>,
    entities: &mut TreeMap<u64, A::Entity>,
    id_seed: &mut IdSeed,
) -> (pending: Reconciliation<A>)
    ensures
        pending.matches(
            final(entities)@,
            *final(id_seed),
            reconcile(unreconciled::<A>(old(entities)@, *old(id_seed)), events@),
        ),
{
    let ghost start = unreconciled::<A>(entities@, *id_seed);
    let ghost all = events@;
    let mut pending = Reconciliation::<A> {
        shutdown: false,
        targeted: TargetedEvents::new(),
        render_events: Vec::new(),
    };
    for event in it: events
        invariant
            it.seq() == all,
            pending.matches(entities@, *id_seed, reconcile(start, all.take(it.index()))),
    {
        proof {
            let seen = all.take(it.index() + 1);
            assert(seen.drop_last() == all.take(it.index()));
            assert(seen.last() == event);
        }
        match event {
            Event::Shutdown => {
                pending.shutdown = true;
            },
            Event::SpawnEvent(id, entity) => {
                let use_id = match A::modify_id(&id, *id_seed) {
                    Some(new_id) => {
                        *id_seed = id_seed.wrapping_add(1);
                        new_id
                    },
                    None => id,
                };
                entities.insert(use_id, entity);
            },
            Event::Delete(id) => {
                entities.remove(&id);
            },
            Event::DeleteRange(from, to) => {
                delete_range(entities, from, to);
            },
            Event::EntityEvent(id, payload) => {
                pending.targeted.insert(id, payload);
            },
            Event::RenderEvent(payload) => {
                pending.render_events.push(payload);
            },
        }
    }
    proof {
        assert(all.take(all.len() as int) == all);
    }
    pending
}

/// Lets the entity take one event, and routes what this emits.
fn take_event<A: App>(
    event: &A::EntityEvent,
    id: u64,
    entity: &mut A::Entity,
    to_route: &mut Vec<Routed<A>>,
)
    ensures
        *final(entity) == A::folded(*event, id, *old(entity)).0,
        final(to_route)@ == old(to_route)@ + A::folded(*event, id, *old(entity)).1,
{
    let mut sink = Sink::empty();
    A::handle_entity_event(event, &id, entity, &mut sink);
    to_route.append(&mut sink.events);
}

/// Lets the entity take the events that target it, in emission order, and
/// routes what they emit.
pub fn take_targeted<A: App>(
    targeted: &TargetedEvents<A::EntityEvent>,
    id: u64,
    entity: &mut A::Entity,
    to_route: &mut Vec<Routed<A>>,
)
    requires
        targeted.wf(),
    ensures
        *final(entity) == fold_all::<A>(targeted_at(targeted@, id), id, *old(entity)).0,
        final(to_route)@ == old(to_route)@ + fold_all::<A>(
            targeted_at(targeted@, id),
            id,
            *old(entity),
        ).1,
{
    let ghost start = *entity;
    let ghost routed = to_route@;
    let ghost payloads = targeted_at(targeted@, id);
    let count = targeted.len();
    proof {
        lemma_payloads_at_positions(targeted@, id);
        lemma_positions_in_bounds(targeted@, id);
    }
    match targeted.positions(id) {
        Some(positions) => {
            let mut k: usize = 0;
            while k < positions.len()
                invariant
                    0 <= k <= positions.len(),
                    targeted.wf(),
                    count == targeted@.len(),
                    positions@ == positions_of(targeted@, id),
                    payloads == targeted_at(targeted@, id),
                    payloads.len() == positions@.len(),
                    forall|n: int|
                        0 <= n < positions@.len() ==> (#[trigger] positions@[n]) < targeted@.len(),
                    forall|n: int|
                        0 <= n < positions@.len() ==> (#[trigger] payloads[n])
                            == targeted@[positions@[n] as int].1,
                    *entity == fold_all::<A>(payloads.take(k as int), id, start).0,
                    to_route@ == routed + fold_all::<A>(payloads.take(k as int), id, start).1,
                decreases positions.len() - k,
            {
                let position = positions[k];
                assert(positions@[k as int] < targeted@.len());
                let event = targeted.payload(position);
                proof {
                    let seen = payloads.take(k + 1);
                    assert(seen.drop_last() == payloads.take(k as int));
                    assert(seen.last() == payloads[k as int]);
                }
                take_event::<A>(event, id, entity, to_route);
                k = k + 1;
            }
            proof {
                assert(payloads.take(payloads.len() as int) == payloads);
            }
        },
        None => {
            proof {
                assert(payloads.len() == 0);
            }
        },
    }
}

/// Lets the entity take its own events of this tick, in emission order, and
/// routes what they emit.
pub fn take_own<A: App>(
    payloads: &Vec<A::EntityEvent>,
    id: u64,
    entity: &mut A::Entity,
    to_route: &mut Vec<Routed<A>>,
)
    ensures
        *final(entity) == fold_all::<A>(payloads@, id, *old(entity)).0,
        final(to_route)@ == old(to_route)@ + fold_all::<A>(payloads@, id, *old(entity)).1,
{
    let ghost start = *entity;
    let ghost routed = to_route@;
    let mut k: usize = 0;
    while k < payloads.len()
        invariant
            0 <= k <= payloads.len(),
            *entity == fold_all::<A>(payloads@.take(k as int), id, start).0,
            to_route@ == routed + fold_all::<A>(payloads@.take(k as int), id, start).1,
        decreases payloads.len() - k,
    {
        proof {
            let seen = payloads@.take(k + 1);
            assert(seen.drop_last() == payloads@.take(k as int));
            assert(seen.last() == payloads@[k as int]);
        }
        take_event::<A>(&payloads[k], id, entity, to_route);
        k = k + 1;
    }
    proof {
        assert(payloads@.take(payloads.len() as int) == payloads@);
    }
}

/// One entity's tick. The working copy takes the events that target the
/// entity, is simulated against the untouched snapshot, and takes its own
/// events at once; everything emitted on the way is routed.
fn step_entity<A: App>(
    time: Tick,
    snapshot: &TreeMap<u64, A::Entity>,
    id: u64,
    entity: &A::Entity,
    targeted: &TargetedEvents<A::EntityEvent>,
    to_route: &mut Vec<Routed<A>>,
) -> (stored: A::Entity)
    requires
        targeted.wf(),
        *entity == snapshot@[id],
    ensures
        stored == stepped::<A>(time, snapshot@, id, targeted_at(targeted@, id)).0,
        final(to_route)@ == old(to_route)@ + stepped::<A>(
            time,
            snapshot@,
            id,
            targeted_at(targeted@, id),
        ).1,
{
    let mut working = A::clone_entity(entity);
    take_targeted::<A>(targeted, id, &mut working, to_route);
    let mut combined_sink = CombinedSink::empty();
    A::simulate(time, snapshot, &id, &working, &mut combined_sink);
    to_route.append(&mut combined_sink.routed.events);
    take_own::<A>(&combined_sink.mine.events, id, &mut working, to_route);
    working
}

/// The order in which a `BTreeMap` walks its keys is the ascending order.
proof fn lemma_increasing_is_ascending(ids: Seq<u64>)
    requires
        increasing_seq(ids),
    ensures
        ascending(ids),
{
    broadcast use vstd::laws_cmp::group_laws_cmp;

    assert forall|i: int, j: int| 0 <= i < j < ids.len() implies ids[i] < ids[j] by {
        assert(ids[i].cmp_spec(&ids[j]) is Less);
    }
}

/// The identifiers of the table in ascending order: the order in which the
/// table is walked.
pub fn ids_in_order<V>(table: &TreeMap<u64, V>) -> (ids: Vec<u64>)
    ensures
        ids@ == ordered_ids(table@),
        ascending(ids@),
        ids@.to_set() == table@.dom(),
{
    let mut ids: Vec<u64> = Vec::new();
    let walk = table.iter();
    let ghost all = spec_btree_map_iter(table).remaining();
    let ghost keys = all.map_values(|entry: (&u64, &V)| *entry.0);
    for entry in it: walk
        invariant
            it.seq() == all,
            keys == all.map_values(|entry: (&u64, &V)| *entry.0),
            ids@ == keys.take(it.index()),
    {
        ids.push(*entry.0);
        proof {
            assert(keys.take(it.index() + 1) =~= keys.take(it.index()).push(*entry.0));
        }
    }
    proof {
        assert(keys.take(keys.len() as int) =~= keys);
        lemma_increasing_is_ascending(keys);
        assert(keys.to_set() =~= table@.dom()) by {
            assert forall|id: u64| keys.to_set().contains(id) <==> table@.dom().contains(id) by {
                if keys.contains(id) {
                    let k = choose|k: int| 0 <= k < keys.len() && keys[k] == id;
                    assert(table@.contains_key(*all[k].0));
                }
                if table@.contains_key(id) {
                    assert(all.contains((&id, &table@[id])));
                    let k = choose|k: int| 0 <= k < all.len() && all[k] == (&id, &table@[id]);
                    assert(keys[k] == id);
                }
            }
        }
        lemma_ordered_ids(table@, keys);
    }
    ids
}

/// Steps every entity of the snapshot, in ascending order of identifier, and
/// returns the next table with everything that was routed.
pub fn step_all<A: App>(
    time: Tick,
    snapshot: &TreeMap<u64, A::Entity>,
    targeted: &TargetedEvents<A::EntityEvent>,
) -> (next: (TreeMap<u64, A::Entity>, Vec<Routed<A>>))
    requires
        targeted.wf(),
    ensures
        next.0@ == stepped_table::<A>(time, snapshot@, targeted@),
        next.1@ == routed_by::<A>(time, snapshot@, targeted@, ordered_ids(snapshot@)),
{
    let mut entities: TreeMap<u64, A::Entity> = TreeMap::new();
    let mut to_route: Vec<Routed<A>> = Vec::new();
    let walk = snapshot.iter();
    let ghost all = spec_btree_map_iter(snapshot).remaining();
    let ghost ids = all.map_values(|entry: (&u64, &A::Entity)| *entry.0);
    proof {
        lemma_increasing_is_ascending(ids);
        assert(ids.to_set() =~= snapshot@.dom()) by {
            assert forall|id: u64| ids.to_set().contains(id) <==> snapshot@.dom().contains(id) by {
                if ids.contains(id) {
                    let k = choose|k: int| 0 <= k < ids.len() && ids[k] == id;
                    assert(snapshot@.contains_key(*all[k].0));
                }
                if snapshot@.contains_key(id) {
                    assert(all.contains((&id, &snapshot@[id])));
                    let k = choose|k: int| 0 <= k < all.len() && all[k] == (&id, &snapshot@[id]);
                    assert(ids[k] == id);
                }
            }
        }
        lemma_ordered_ids(snapshot@, ids);
    }
    for entry in it: walk
        invariant
            targeted.wf(),
            it.seq() == all,
            ids == all.map_values(|entry: (&u64, &A::Entity)| *entry.0),
            forall|k: int|
                0 <= k < all.len() ==> snapshot@.contains_key(*(#[trigger] all[k]).0)
                    && snapshot@[*all[k].0] == *all[k].1,
            entities@ == stepped_table::<A>(time, snapshot@, targeted@).restrict(
                ids.take(it.index()).to_set(),
            ),
            to_route@ == routed_by::<A>(time, snapshot@, targeted@, ids.take(it.index())),
    {
        let (id, entity) = entry;
        proof {
            let seen = ids.take(it.index() + 1);
            assert(seen.drop_last() == ids.take(it.index()));
            assert(seen.last() == *id);
            assert(seen.to_set() =~= ids.take(it.index()).to_set().insert(*id));
        }
        let stored = step_entity::<A>(time, snapshot, *id, entity, targeted, &mut to_route);
        entities.insert(*id, stored);
        proof {
            assert(entities@ =~= stepped_table::<A>(time, snapshot@, targeted@).restrict(
                ids.take(it.index() + 1).to_set(),
            ));
        }
    }
    proof {
        assert(ids.take(ids.len() as int) == ids);
        assert(entities@ =~= stepped_table::<A>(time, snapshot@, targeted@));
    }
    (entities, to_route)
}

/// What one presentation frame hands to the presentation.
pub struct Frame<A: App> {
    /// The time of the frame.
    pub render_tick: RenderTick,
    /// The render events of the frame's ticks, in emission order.
    pub render_events: Vec<A::RenderEvent>,
}

/// The scheduler: the entity table, the queue of routed events, the
/// identifier seed and the time that is not yet simulated.
pub struct Scheduler<A: App> {
    tick_rate: u64,
    tick: u64,
    entities: TreeMap<u64, A::Entity>,
    to_route: Vec<Routed<A>>,
    id_seed: IdSeed,
    simulation_accu_ns: u64,
    running: bool,
}

impl<A: App> View for Scheduler<A> {
    type V = SchedulerState<A>;

    closed spec fn view(&self) -> SchedulerState<A> {
        SchedulerState {
            tick_rate: self.tick_rate,
            tick: self.tick,
            entities: self.entities@,
            to_route: self.to_route@,
            id_seed: self.id_seed,
            accu_ns: self.simulation_accu_ns,
            running: self.running,
        }
    }
}

impl<A: App> Scheduler<A> {
    /// A period is at least one nanosecond, and while the scheduler runs
    /// less than one period is left in the accumulator.
    #[verifier::type_invariant]
    spec fn paced(&self) -> bool {
        &&& 0 < self.tick_rate <= NANOSECONDS_IN_A_SECOND
        &&& self.running ==> self.simulation_accu_ns < period_ns(self.tick_rate)
    }

    /// A scheduler at tick 0 over the initial table, with nothing queued.
    /// There is none for a tick rate of zero, nor for one above a tick per
    /// nanosecond.
    pub fn new(settings: SimSettings, initial_entities: TreeMap<u64, A::Entity>) -> (created:
        Option<Scheduler<A>>)
        ensures
            created is Some <==> 0 < settings.tick_rate <= NANOSECONDS_IN_A_SECOND,
            created matches Some(scheduler) ==> scheduler@.valid(),
            created matches Some(scheduler) ==> scheduler@ == (SchedulerState::<A> {
                tick_rate: settings.tick_rate,
                tick: 0,
                entities: initial_entities@,
                to_route: Seq::empty(),
                id_seed: 0,
                accu_ns: 0,
                running: true,
            }),
    {
        if settings.tick_rate == 0 || settings.tick_rate > NANOSECONDS_IN_A_SECOND {
            None
        } else {
            proof {
                lemma_period_positive(settings.tick_rate);
            }
            Some(
                Scheduler {
                    tick_rate: settings.tick_rate,
                    tick: 0,
                    entities: initial_entities,
                    to_route: Vec::new(),
                    id_seed: 0,
                    simulation_accu_ns: 0,
                    running: true,
                },
            )
        }
    }

    /// The number of ticks simulated so far.
    pub fn tick_number(&self) -> (n: u64)
        ensures
            n == self@.tick,
    {
        self.tick
    }

    /// The entity table as the last tick left it.
    pub fn entities(&self) -> (table: &TreeMap<u64, A::Entity>)
        ensures
            table@ == self@.entities,
    {
        &self.entities
    }

    /// The events that the next tick will reconcile.
    pub fn pending(&self) -> (queue: &Vec<Routed<A>>)
        ensures
            queue@ == self@.to_route,
    {
        &self.to_route
    }

    /// The identifier seed.
    pub fn id_seed(&self) -> (seed: IdSeed)
        ensures
            seed == self@.id_seed,
    {
        self.id_seed
    }

    /// False once a shutdown has been reconciled.
    pub fn is_running(&self) -> (running: bool)
        ensures
            running == self@.running,
    {
        self.running
    }

    /// What the presentation is told about time. While the scheduler runs,
    /// the accumulated time is less than one period.
    pub fn render_tick(&self) -> (time: RenderTick)
        ensures
            time == self@.render_time(),
            0 < time.tick_duration_ns,
            self@.running ==> time.accu_ns < time.tick_duration_ns,
    {
        proof {
            use_type_invariant(self);
            lemma_period_positive(self.tick_rate);
        }
        RenderTick {
            n: self.tick,
            accu_ns: self.simulation_accu_ns,
            tick_duration_ns: NANOSECONDS_IN_A_SECOND / self.tick_rate,
            tick_rate: self.tick_rate,
        }
    }

    /// Queues events for the next tick, behind those that wait already.
    pub fn route(&mut self, events: Vec<Routed<A>>)
        ensures
            final(self)@ == old(self)@.routed(events@),
            final(self)@.valid(),
    {
        proof {
            use_type_invariant(&*self);
        }
        let mut events = events;
        let mut queue: Vec<Routed<A>> = Vec::new();
        core::mem::swap(&mut self.to_route, &mut queue);
        queue.append(&mut events);
        self.to_route = queue;
    }

    /// Simulates one tick: reconciles the queue into the table, steps every
    /// entity against that table, and queues what they route. Returns the
    /// render events of the reconciled queue. A scheduler that has shut down
    /// ticks all the same when it is asked to; it is `advance` that stops.
    pub fn tick(&mut self) -> (render_events: Vec<A::RenderEvent>)
        requires
            old(self)@.tick < u64::MAX,
        ensures
            final(self)@ == old(self)@.ticked(),
            final(self)@.valid(),
            render_events@ == old(self)@.rendered(),
    {
        proof {
            use_type_invariant(&*self);
        }
        let time = Tick {
            n: self.tick,
            tick_duration_ns: NANOSECONDS_IN_A_SECOND / self.tick_rate,
            tick_rate: self.tick_rate,
        };
        let mut events: Vec<Routed<A>> = Vec::new();
        core::mem::swap(&mut self.to_route, &mut events);
        let mut last_entities: TreeMap<u64, A::Entity> = TreeMap::new();
        core::mem::swap(&mut self.entities, &mut last_entities);
        let mut id_seed = self.id_seed;
        let pending = reconcile_events::<A>(events, &mut last_entities, &mut id_seed);
        let (entities, to_route) = step_all::<A>(time, &last_entities, &pending.targeted);
        self.entities = entities;
        self.to_route = to_route;
        self.id_seed = id_seed;
        self.tick = self.tick + 1;
        if pending.shutdown {
            self.running = false;
        }
        pending.render_events
    }

    /// One presentation frame. The input events join the queue, the elapsed
    /// time joins the accumulator, and every whole period in it is turned
    /// into a tick, until a shutdown is met. Returns the frame's render
    /// events and its time. A scheduler that has shut down stays as it is.
    pub fn advance(&mut self, time_delta_ns: u64, input: Vec<Routed<A>>) -> (frame: Frame<A>)
        requires
            old(self)@.running ==> old(self)@.tick + old(self)@.owed(time_delta_ns) <= u64::MAX,
        ensures
            final(self)@ == old(self)@.framed(input@, time_delta_ns),
            final(self)@.valid(),
            frame.render_events@ == old(self)@.frame_rendered(input@, time_delta_ns),
            frame.render_tick == final(self)@.render_time(),
    {
        proof {
            use_type_invariant(&*self);
        }
        let mut render_events: Vec<A::RenderEvent> = Vec::new();
        if !self.running {
            return Frame { render_tick: self.render_tick(), render_events };
        }
        self.route(input);
        let ghost start = self@;
        let ghost owed = start.owed(time_delta_ns);
        let period = NANOSECONDS_IN_A_SECOND / self.tick_rate;
        let total: u128 = self.simulation_accu_ns as u128 + time_delta_ns as u128;
        let mut left: u128 = total;
        let ghost mut done: nat = 0;
        proof {
            lemma_owed(total as int, period as int, 0);
        }
        while left >= period as u128 && self.running
            invariant
                0 < period == period_ns(start.tick_rate),
                start.accu_ns < period,
                total == start.accu_ns + time_delta_ns,
                owed == start.owed(time_delta_ns),
                start.tick + owed <= u64::MAX,
                start.running,
                done <= owed,
                left + done * period == total,
                owed - done == left as int / period as int,
                done == 0 ==> self@ == start,
                done > 0 ==> left < time_delta_ns,
                self@.tick == start.tick + done,
                self@.tick_rate == start.tick_rate,
                self@.accu_ns == start.accu_ns,
                self@.run((owed - done) as nat) == start.run(owed),
                render_events@ + self@.run_rendered((owed - done) as nat) == start.run_rendered(
                    owed,
                ),
            decreases left,
        {
            proof {
                assert(left as int / period as int >= 1) by (nonlinear_arith)
                    requires
                        left >= period,
                        period > 0,
                ;
                assert((done + 1) * period == done * period + period) by (nonlinear_arith);
                lemma_owed(total as int, period as int, (done + 1) as int);
            }
            let ghost before = self@;
            let ghost shown = render_events@;
            let mut events = self.tick();
            render_events.append(&mut events);
            left = left - period as u128;
            proof {
                done = done + 1;
                assert(render_events@ + self@.run_rendered((owed - done) as nat) =~= shown
                    + before.run_rendered((owed - done + 1) as nat));
            }
        }
        let ghost ran = self@;
        proof {
            if self.running {
                vstd::arithmetic::div_mod::lemma_basic_div(left as int, period as int);
            }
            assert(ran.run((owed - done) as nat) == ran);
            assert(ran.run_rendered((owed - done) as nat) =~= Seq::<A::RenderEvent>::empty());
            assert(render_events@ =~= start.run_rendered(owed));
            assert(left == start.accu_ns + time_delta_ns - (ran.tick - start.tick) * period);
        }
        self.simulation_accu_ns = left as u64;
        Frame { render_tick: self.render_tick(), render_events }
    }
}

/// Once `done` whole periods are taken out of `total`, the periods that are
/// left in it are those that were in it, less `done`.
proof fn lemma_owed(total: int, period: int, done: int)
    requires
        0 < period,
        0 <= done,
        done * period <= total,
    ensures
        (total - done * period) / period == total / period - done,
{
    vstd::arithmetic::div_mod::lemma_fundamental_div_mod(total, period);
    vstd::arithmetic::div_mod::lemma_fundamental_div_mod(total - done * period, period);
    let q = total / period;
    let r = total % period;
    let q2 = (total - done * period) / period;
    let r2 = (total - done * period) % period;
    assert(period * (q - done) + r == period * q2 + r2) by (nonlinear_arith)
        requires
            total == period * q + r,
            total - done * period == period * q2 + r2,
    ;
    vstd::arithmetic::div_mod::lemma_fundamental_div_mod_converse(
        total - done * period,
        period,
        q - done,
        r,
    );
}

} // verus!
