//! What one tick does to the table, as mathematics.

use vstd::prelude::*;
use crate::app::{App, IdSeed, Routed};
use crate::event::Event;
use crate::{RenderTick, Tick};

verus! {

pub const NANOSECONDS_IN_A_SECOND: u64 = 1_000_000_000u64;

/// The identifiers from `from` to `to`, both included.
pub open spec fn id_range(from: u64, to: u64) -> Set<u64> {
    Set::new(|id: u64| from <= id <= to)
}

/// The next value of the identifier seed. It wraps around after `u64::MAX`.
pub open spec fn next_seed(seed: IdSeed) -> IdSeed {
    if seed == u64::MAX {
        0
    } else {
        (seed + 1) as u64
    }
}

/// What a queue of routed events has come to, event by event.
pub struct Reconciled<A: App> {
    /// The table, after the spawns and deletions.
    pub entities: Map<u64, A::Entity>,
    /// The identifier seed, advanced once for each rewritten spawn.
    pub id_seed: IdSeed,
    /// Whether a shutdown was among the events.
    pub shutdown: bool,
    /// The targeted events, each with its target, in emission order.
    pub targeted: Seq<(u64, A::EntityEvent)>,
    /// The render events, in emission order.
    pub render_events: Seq<A::RenderEvent>,
}

/// Where reconciling starts: the table as the last tick left it.
pub open spec fn unreconciled<A: App>(
    entities: Map<u64, A::Entity>,
    id_seed: IdSeed,
) -> Reconciled<A> {
    Reconciled {
        entities,
        id_seed,
        shutdown: false,
        targeted: Seq::empty(),
        render_events: Seq::empty(),
    }
}

/// The identifier at which a spawn lands.
pub open spec fn spawn_id<A: App>(id: u64, seed: IdSeed) -> u64 {
    match A::modified_id(id, seed) {
        Some(new_id) => new_id,
        None => id,
    }
}

/// One routed event applied.
pub open spec fn reconcile_one<A: App>(r: Reconciled<A>, event: Routed<A>) -> Reconciled<A> {
    match event {
        Event::Shutdown => Reconciled { shutdown: true, ..r },
        Event::SpawnEvent(id, entity) => Reconciled {
            entities: r.entities.insert(spawn_id::<A>(id, r.id_seed), entity),
            id_seed: if A::modified_id(id, r.id_seed) is Some {
                next_seed(r.id_seed)
            } else {
                r.id_seed
            },
            ..r
        },
        Event::Delete(id) => Reconciled { entities: r.entities.remove(id), ..r },
        Event::DeleteRange(from, to) => Reconciled {
            entities: r.entities.remove_keys(id_range(from, to)),
            ..r
        },
        Event::EntityEvent(id, payload) => Reconciled {
            targeted: r.targeted.push((id, payload)),
            ..r
        },
        Event::RenderEvent(payload) => Reconciled {
            render_events: r.render_events.push(payload),
            ..r
        },
    }
}

/// The routed events applied in emission order.
pub open spec fn reconcile<A: App>(r: Reconciled<A>, events: Seq<Routed<A>>) -> Reconciled<A>
    decreases events.len(),
{
    if events.len() == 0 {
        r
    } else {
        reconcile_one(reconcile(r, events.drop_last()), events.last())
    }
}

/// The payloads that target `id`, in emission order.
pub open spec fn targeted_at<E>(targeted: Seq<(u64, E)>, id: u64) -> Seq<E>
    decreases targeted.len(),
{
    if targeted.len() == 0 {
        Seq::empty()
    } else if targeted.last().0 == id {
        targeted_at(targeted.drop_last(), id).push(targeted.last().1)
    } else {
        targeted_at(targeted.drop_last(), id)
    }
}

/// The entity after it has taken the payloads one after the other, and all
/// that this emitted.
pub open spec fn fold_all<A: App>(payloads: Seq<A::EntityEvent>, id: u64, entity: A::Entity) -> (
    A::Entity,
    Seq<Routed<A>>,
)
    decreases payloads.len(),
{
    if payloads.len() == 0 {
        (entity, Seq::empty())
    } else {
        let before = fold_all::<A>(payloads.drop_last(), id, entity);
        let after = A::folded(payloads.last(), id, before.0);
        (after.0, before.1 + after.1)
    }
}

/// One entity's tick: it takes the events that target it, is simulated
/// against the whole table, and takes its own events at once. The result is
/// the entity as it is stored, and everything routed on the way.
pub open spec fn stepped<A: App>(
    time: Tick,
    table: Map<u64, A::Entity>,
    id: u64,
    payloads: Seq<A::EntityEvent>,
) -> (A::Entity, Seq<Routed<A>>) {
    let taken = fold_all::<A>(payloads, id, table[id]);
    let decided = A::simulated(time, table, id, taken.0);
    let settled = fold_all::<A>(decided.0, id, taken.0);
    (settled.0, taken.1 + decided.1 + settled.1)
}

/// Whether the identifiers stand in strictly ascending order.
pub open spec fn ascending(ids: Seq<u64>) -> bool {
    forall|i: int, j: int| 0 <= i < j < ids.len() ==> ids[i] < ids[j]
}

/// The identifiers of a table in ascending order.
pub open spec fn ordered_ids<V>(table: Map<u64, V>) -> Seq<u64> {
    choose|ids: Seq<u64>| ascending(ids) && ids.to_set() == table.dom()
}

/// What the entities at `ids` route in one tick, entity after entity.
pub open spec fn routed_by<A: App>(
    time: Tick,
    table: Map<u64, A::Entity>,
    targeted: Seq<(u64, A::EntityEvent)>,
    ids: Seq<u64>,
) -> Seq<Routed<A>>
    decreases ids.len(),
{
    if ids.len() == 0 {
        Seq::empty()
    } else {
        routed_by::<A>(time, table, targeted, ids.drop_last()) + stepped::<A>(
            time,
            table,
            ids.last(),
            targeted_at(targeted, ids.last()),
        ).1
    }
}

/// The table after one tick: every entity of `table` stepped.
pub open spec fn stepped_table<A: App>(
    time: Tick,
    table: Map<u64, A::Entity>,
    targeted: Seq<(u64, A::EntityEvent)>,
) -> Map<u64, A::Entity> {
    Map::new(
        |id: u64| table.contains_key(id),
        |id: u64| stepped::<A>(time, table, id, targeted_at(targeted, id)).0,
    )
}

/// The length of one tick in whole nanoseconds.
pub open spec fn period_ns(tick_rate: u64) -> u64 {
    if tick_rate == 0 {
        0
    } else {
        (NANOSECONDS_IN_A_SECOND / tick_rate) as u64
    }
}

/// A tick rate of at most one tick per nanosecond has a period of at least
/// one nanosecond.
pub proof fn lemma_period_positive(tick_rate: u64)
    requires
        0 < tick_rate <= NANOSECONDS_IN_A_SECOND,
    ensures
        0 < period_ns(tick_rate) <= NANOSECONDS_IN_A_SECOND,
{
    let rate = tick_rate as int;
    assert(1 <= 1_000_000_000int / rate <= 1_000_000_000int) by (nonlinear_arith)
        requires
            0 < rate <= 1_000_000_000int,
    ;
}

/// The state of a scheduler between two ticks.
pub struct SchedulerState<A: App> {
    /// Ticks per second.
    pub tick_rate: u64,
    /// The number of ticks simulated so far.
    pub tick: u64,
    /// The entity table.
    pub entities: Map<u64, A::Entity>,
    /// The events that the next tick reconciles, in emission order.
    pub to_route: Seq<Routed<A>>,
    /// The identifier seed.
    pub id_seed: IdSeed,
    /// Elapsed time that has not been turned into ticks yet, in nanoseconds.
    pub accu_ns: u64,
    /// False once a shutdown has been reconciled.
    pub running: bool,
}

impl<A: App> SchedulerState<A> {
    /// What holds of the state of every scheduler: a period is at least one
    /// nanosecond, the table is finite, and while the scheduler runs less
    /// than one period is left in the accumulator.
    pub open spec fn valid(self) -> bool {
        &&& 0 < self.tick_rate <= NANOSECONDS_IN_A_SECOND
        &&& self.entities.dom().finite()
        &&& self.running ==> self.accu_ns < period_ns(self.tick_rate)
    }

    /// What a simulation step of the next tick is told about time.
    pub open spec fn time(self) -> Tick {
        Tick { n: self.tick, tick_duration_ns: period_ns(self.tick_rate), tick_rate: self.tick_rate }
    }

    /// What the queue of routed events comes to.
    pub open spec fn reconciled(self) -> Reconciled<A> {
        reconcile(unreconciled::<A>(self.entities, self.id_seed), self.to_route)
    }

    /// The state with more events at the end of the queue.
    pub open spec fn routed(self, events: Seq<Routed<A>>) -> SchedulerState<A> {
        SchedulerState { to_route: self.to_route + events, ..self }
    }

    /// The state one tick later: the queue is reconciled into the table,
    /// every entity is stepped against that table, and what they route is
    /// the next queue.
    pub open spec fn ticked(self) -> SchedulerState<A> {
        let r = self.reconciled();
        SchedulerState {
            tick_rate: self.tick_rate,
            tick: (self.tick + 1) as u64,
            entities: stepped_table::<A>(self.time(), r.entities, r.targeted),
            to_route: routed_by::<A>(self.time(), r.entities, r.targeted, ordered_ids(r.entities)),
            id_seed: r.id_seed,
            accu_ns: self.accu_ns,
            running: self.running && !r.shutdown,
        }
    }

    /// The render events that the next tick hands out.
    pub open spec fn rendered(self) -> Seq<A::RenderEvent> {
        self.reconciled().render_events
    }

    /// The state after up to `count` ticks: the ticks stop once a shutdown
    /// has been reconciled.
    pub open spec fn run(self, count: nat) -> SchedulerState<A>
        decreases count,
    {
        if count == 0 || !self.running {
            self
        } else {
            self.ticked().run((count - 1) as nat)
        }
    }

    /// The render events that those ticks hand out, in order.
    pub open spec fn run_rendered(self, count: nat) -> Seq<A::RenderEvent>
        decreases count,
    {
        if count == 0 || !self.running {
            Seq::empty()
        } else {
            self.rendered() + self.ticked().run_rendered((count - 1) as nat)
        }
    }

    /// The ticks that are owed once `time_delta_ns` more have elapsed.
    pub open spec fn owed(self, time_delta_ns: u64) -> nat {
        if self.tick_rate == 0 || period_ns(self.tick_rate) == 0 {
            0
        } else {
            ((self.accu_ns + time_delta_ns) / (period_ns(self.tick_rate) as int)) as nat
        }
    }

    /// The state once `time_delta_ns` more have elapsed: the elapsed time
    /// joins the accumulator, every whole period in it is turned into a tick
    /// until a shutdown is met, and the rest stays in the accumulator.
    pub open spec fn advanced(self, time_delta_ns: u64) -> SchedulerState<A> {
        let after = self.run(self.owed(time_delta_ns));
        SchedulerState {
            accu_ns: (self.accu_ns + time_delta_ns - (after.tick - self.tick) * period_ns(
                self.tick_rate,
            )) as u64,
            ..after
        }
    }

    /// The state after one presentation frame: the input events join the
    /// queue and the elapsed time is simulated. A scheduler that has shut
    /// down stays as it is.
    pub open spec fn framed(self, input: Seq<Routed<A>>, time_delta_ns: u64) -> SchedulerState<A> {
        if self.running {
            self.routed(input).advanced(time_delta_ns)
        } else {
            self
        }
    }

    /// The render events of that frame, in emission order.
    pub open spec fn frame_rendered(self, input: Seq<Routed<A>>, time_delta_ns: u64) -> Seq<
        A::RenderEvent,
    > {
        if self.running {
            self.routed(input).run_rendered(self.owed(time_delta_ns))
        } else {
            Seq::empty()
        }
    }

    /// What the presentation is told about time in this state.
    pub open spec fn render_time(self) -> RenderTick {
        RenderTick {
            n: self.tick,
            accu_ns: self.accu_ns,
            tick_duration_ns: period_ns(self.tick_rate),
            tick_rate: self.tick_rate,
        }
    }
}

/// Two ascending sequences with the same elements are the same sequence.
pub proof fn lemma_ascending_unique(a: Seq<u64>, b: Seq<u64>)
    requires
        ascending(a),
        ascending(b),
        a.to_set() == b.to_set(),
    ensures
        a == b,
    decreases a.len(),
{
    if a.len() == 0 {
        if b.len() > 0 {
            assert(b.to_set().contains(b[0]));
            assert(a.contains(b[0]));
        }
        assert(a =~= b);
    } else {
        let top = a.last();
        assert(a.to_set().contains(top));
        assert(b.contains(top));
        let j = choose|j: int| 0 <= j < b.len() && b[j] == top;
        assert(b.to_set().contains(b.last()));
        assert(a.contains(b.last()));
        let k = choose|k: int| 0 <= k < a.len() && a[k] == b.last();
        assert(b.last() == top);
        let a0 = a.drop_last();
        let b0 = b.drop_last();
        assert forall|id: u64| a0.to_set().contains(id) <==> b0.to_set().contains(id) by {
            if a0.contains(id) {
                let i = choose|i: int| 0 <= i < a0.len() && a0[i] == id;
                assert(a[i] == id);
                assert(a.to_set().contains(id));
                assert(b.contains(id));
                let m = choose|m: int| 0 <= m < b.len() && b[m] == id;
                assert(b0[m] == id);
            }
            if b0.contains(id) {
                let i = choose|i: int| 0 <= i < b0.len() && b0[i] == id;
                assert(b[i] == id);
                assert(b.to_set().contains(id));
                assert(a.contains(id));
                let m = choose|m: int| 0 <= m < a.len() && a[m] == id;
                assert(a0[m] == id);
            }
        }
        assert(a0.to_set() =~= b0.to_set());
        lemma_ascending_unique(a0, b0);
        assert(a =~= a0.push(top));
        assert(b =~= b0.push(top));
    }
}

/// How many identifiers of an ascending sequence lie below `id`.
spec fn count_below(ids: Seq<u64>, id: u64) -> int
    decreases ids.len(),
{
    if ids.len() == 0 {
        0
    } else if ids.last() < id {
        ids.len() as int
    } else {
        count_below(ids.drop_last(), id)
    }
}

/// In an ascending sequence the identifiers below `id` stand before the
/// others.
proof fn lemma_count_below(ids: Seq<u64>, id: u64)
    requires
        ascending(ids),
    ensures
        0 <= count_below(ids, id) <= ids.len(),
        forall|i: int| 0 <= i < count_below(ids, id) ==> ids[i] < id,
        forall|i: int| count_below(ids, id) <= i < ids.len() ==> ids[i] >= id,
    decreases ids.len(),
{
    if ids.len() > 0 && ids.last() >= id {
        let rest = ids.drop_last();
        lemma_count_below(rest, id);
        assert forall|i: int| 0 <= i < count_below(ids, id) implies ids[i] < id by {
            assert(ids[i] == rest[i]);
        }
        assert forall|i: int| count_below(ids, id) <= i < ids.len() implies ids[i] >= id by {
            if i < rest.len() {
                assert(ids[i] == rest[i]);
            }
        }
    }
}

/// A finite set of identifiers can be written in ascending order.
proof fn lemma_ascending_exists(ids: Set<u64>)
    requires
        ids.finite(),
    ensures
        exists|order: Seq<u64>| ascending(order) && order.to_set() == ids,
    decreases ids.len(),
{
    if ids.len() == 0 {
        let order = Seq::<u64>::empty();
        assert(order.to_set() =~= ids);
        assert(ascending(order) && order.to_set() == ids);
    } else {
        let id = ids.choose();
        let others = ids.remove(id);
        lemma_ascending_exists(others);
        let rest = choose|rest: Seq<u64>| ascending(rest) && rest.to_set() == others;
        lemma_count_below(rest, id);
        let k = count_below(rest, id);
        let order = rest.insert(k, id);
        assert forall|i: int, j: int| 0 <= i < j < order.len() implies order[i] < order[j] by {
            if i >= k {
                if i > k {
                    assert(order[i] == rest[i - 1]);
                }
                assert(order[j] == rest[j - 1]);
                assert(rest.to_set().contains(rest[j - 1]));
            } else {
                assert(order[i] == rest[i]);
                if j > k {
                    assert(order[j] == rest[j - 1]);
                }
            }
        }
        assert forall|other: u64| order.to_set().contains(other) <==> ids.contains(other) by {
            if order.contains(other) {
                let i = choose|i: int| 0 <= i < order.len() && order[i] == other;
                if i < k {
                    assert(rest[i] == other);
                    assert(rest.to_set().contains(other));
                } else if i > k {
                    assert(rest[i - 1] == other);
                    assert(rest.to_set().contains(other));
                }
            }
            if ids.contains(other) {
                if other == id {
                    assert(order[k] == other);
                } else {
                    assert(others.contains(other));
                    assert(rest.contains(other));
                    let i = choose|i: int| 0 <= i < rest.len() && rest[i] == other;
                    if i < k {
                        assert(order[i] == other);
                    } else {
                        assert(order[i + 1] == other);
                    }
                }
            }
        }
        assert(order.to_set() =~= ids);
        assert(ascending(order) && order.to_set() == ids);
    }
}

/// The order of a finite table is ascending and holds exactly the table's
/// identifiers.
pub proof fn lemma_ordered_ids_exist<V>(table: Map<u64, V>)
    requires
        table.dom().finite(),
    ensures
        ascending(ordered_ids(table)),
        ordered_ids(table).to_set() == table.dom(),
{
    lemma_ascending_exists(table.dom());
}

/// An ascending sequence that holds exactly the table's identifiers is the
/// table's order.
pub proof fn lemma_ordered_ids<V>(table: Map<u64, V>, ids: Seq<u64>)
    requires
        ascending(ids),
        ids.to_set() == table.dom(),
    ensures
        ordered_ids(table) == ids,
{
    let chosen = ordered_ids(table);
    assert(ascending(chosen) && chosen.to_set() == table.dom());
    lemma_ascending_unique(chosen, ids);
}

} // verus!
