//! Laws of the scheduler, proved over its model.

use vstd::prelude::*;
use crate::app::model::{
    fold_all, id_range, lemma_ordered_ids_exist, lemma_period_positive, next_seed, ordered_ids,
    period_ns, reconcile, reconcile_one, routed_by, stepped, stepped_table, targeted_at,
    unreconciled, Reconciled, SchedulerState,
};
use crate::Tick;
use crate::app::{App, Routed};
use crate::event::Event;

verus! {

/// Reconciling a queue in two parts is reconciling the whole queue.
pub proof fn lemma_reconcile_concat<A: App>(
    r: Reconciled<A>,
    first: Seq<Routed<A>>,
    second: Seq<Routed<A>>,
)
    ensures
        reconcile(r, first + second) == reconcile(reconcile(r, first), second),
    decreases second.len(),
{
    if second.len() == 0 {
        assert(first + second =~= first);
    } else {
        lemma_reconcile_concat(r, first, second.drop_last());
        assert((first + second).drop_last() =~= first + second.drop_last());
        assert((first + second).last() == second.last());
    }
}

/// Reconciling a queue of one event applies that event.
pub proof fn lemma_reconcile_single<A: App>(r: Reconciled<A>, event: Routed<A>)
    ensures
        reconcile(r, seq![event]) == reconcile_one(r, event),
{
    let queue = seq![event];
    assert(queue.drop_last() =~= Seq::<Routed<A>>::empty());
    assert(queue.last() == event);
    assert(reconcile(r, queue.drop_last()) == r);
}

/// Range deletion removes exactly the entities whose identifier lies
/// between the two bounds, both included, and leaves every other entity and
/// everything else as it was.
pub proof fn lemma_range_deletion<A: App>(r: Reconciled<A>, from: u64, to: u64)
    ensures
        ({
            let after = reconcile_one(r, Event::DeleteRange(from, to));
            &&& forall|id: u64|
                after.entities.contains_key(id) <==> r.entities.contains_key(id) && !(from <= id
                    <= to)
            &&& forall|id: u64|
                after.entities.contains_key(id) ==> after.entities[id] == r.entities[id]
            &&& after == Reconciled { entities: after.entities, ..r }
        }),
{
}

/// A spawn whose identifier the application rewrites lands at the new
/// identifier and advances the seed once; any other spawn lands where it was
/// asked for and leaves the seed alone. Either way no other entity changes.
pub proof fn lemma_spawn<A: App>(r: Reconciled<A>, id: u64, entity: A::Entity)
    ensures
        ({
            let after = reconcile_one(r, Event::SpawnEvent(id, entity));
            &&& A::modified_id(id, r.id_seed) matches Some(new_id) ==> {
                &&& after.entities == r.entities.insert(new_id, entity)
                &&& after.id_seed == next_seed(r.id_seed)
                &&& r.id_seed < u64::MAX ==> after.id_seed == r.id_seed + 1
                &&& new_id != id ==> (after.entities.contains_key(id) <==> r.entities.contains_key(
                    id,
                ))
                &&& new_id != id && r.entities.contains_key(id) ==> after.entities[id]
                    == r.entities[id]
            }
            &&& A::modified_id(id, r.id_seed) is None ==> {
                &&& after.entities == r.entities.insert(id, entity)
                &&& after.id_seed == r.id_seed
            }
            &&& after == Reconciled { entities: after.entities, id_seed: after.id_seed, ..r }
        }),
{
}

/// How many spawns of the queue have their identifier rewritten.
pub open spec fn rewrites<A: App>(r: Reconciled<A>, events: Seq<Routed<A>>) -> nat
    decreases events.len(),
{
    if events.len() == 0 {
        0
    } else {
        let before = reconcile(r, events.drop_last());
        let earlier = rewrites(r, events.drop_last());
        match events.last() {
            Event::SpawnEvent(id, _) => if A::modified_id(id, before.id_seed) is Some {
                earlier + 1
            } else {
                earlier
            },
            _ => earlier,
        }
    }
}

/// The seed advances exactly once for each rewritten spawn, and for nothing
/// else. It is a counter of 64 bits.
pub proof fn lemma_seed_counts_rewrites<A: App>(r: Reconciled<A>, events: Seq<Routed<A>>)
    ensures
        reconcile(r, events).id_seed == (r.id_seed + rewrites(r, events)) % 0x1_0000_0000_0000_0000,
        r.id_seed + rewrites(r, events) <= u64::MAX ==> reconcile(r, events).id_seed == r.id_seed
            + rewrites(r, events),
    decreases events.len(),
{
    if events.len() > 0 {
        lemma_seed_counts_rewrites(r, events.drop_last());
    }
}

/// An event that the entity pushes for itself while it is simulated is in
/// the entity as the same tick stores it.
pub proof fn lemma_self_events_immediate<A: App>(s: SchedulerState<A>, id: u64)
    requires
        s.reconciled().entities.contains_key(id),
    ensures
        ({
            let r = s.reconciled();
            let taken = fold_all::<A>(targeted_at(r.targeted, id), id, r.entities[id]).0;
            let own = A::simulated(s.time(), r.entities, id, taken).0;
            &&& s.ticked().entities.contains_key(id)
            &&& s.ticked().entities[id] == fold_all::<A>(own, id, taken).0
        }),
{
}

/// Reconciling keeps a finite table finite.
pub proof fn lemma_reconcile_finite<A: App>(r: Reconciled<A>, events: Seq<Routed<A>>)
    requires
        r.entities.dom().finite(),
    ensures
        reconcile(r, events).entities.dom().finite(),
    decreases events.len(),
{
    if events.len() > 0 {
        lemma_reconcile_finite(r, events.drop_last());
        let before = reconcile(r, events.drop_last());
        match events.last() {
            Event::DeleteRange(from, to) => {
                assert(reconcile(r, events).entities.dom() =~= before.entities.dom().difference(
                    id_range(from, to),
                ));
            },
            _ => {},
        }
    }
}

/// The payloads for an entity grow by the payload of one more event for it,
/// and by nothing else.
pub proof fn lemma_targeted_at_push<E>(targeted: Seq<(u64, E)>, entry: (u64, E), id: u64)
    ensures
        targeted_at(targeted.push(entry), id) == if entry.0 == id {
            targeted_at(targeted, id).push(entry.1)
        } else {
            targeted_at(targeted, id)
        },
{
    let longer = targeted.push(entry);
    assert(longer.drop_last() =~= targeted);
    assert(longer.last() == entry);
}

/// Whether two reconciliations differ at most in the events for `id`.
pub open spec fn agree_but_for<A: App>(a: Reconciled<A>, b: Reconciled<A>, id: u64) -> bool {
    &&& a.entities == b.entities
    &&& a.id_seed == b.id_seed
    &&& a.shutdown == b.shutdown
    &&& a.render_events == b.render_events
    &&& forall|other: u64|
        other != id ==> targeted_at(a.targeted, other) == targeted_at(b.targeted, other)
}

/// The events for one entity bear on nothing but that entity's events.
proof fn lemma_agree_reconcile<A: App>(
    a: Reconciled<A>,
    b: Reconciled<A>,
    id: u64,
    events: Seq<Routed<A>>,
)
    requires
        agree_but_for(a, b, id),
    ensures
        agree_but_for(reconcile(a, events), reconcile(b, events), id),
    decreases events.len(),
{
    if events.len() > 0 {
        lemma_agree_reconcile(a, b, id, events.drop_last());
        let a0 = reconcile(a, events.drop_last());
        let b0 = reconcile(b, events.drop_last());
        let a1 = reconcile(a, events);
        let b1 = reconcile(b, events);
        match events.last() {
            Event::EntityEvent(target, payload) => {
                assert forall|other: u64| other != id implies targeted_at(a1.targeted, other)
                    == targeted_at(b1.targeted, other) by {
                    lemma_targeted_at_push(a0.targeted, (target, payload), other);
                    lemma_targeted_at_push(b0.targeted, (target, payload), other);
                }
            },
            _ => {},
        }
    }
}

/// What entities route depends on the targeted events only through the
/// events for those entities.
proof fn lemma_routed_by_agree<A: App>(
    time: Tick,
    table: Map<u64, A::Entity>,
    first: Seq<(u64, A::EntityEvent)>,
    second: Seq<(u64, A::EntityEvent)>,
    ids: Seq<u64>,
)
    requires
        forall|k: int| 0 <= k < ids.len() ==> targeted_at(first, #[trigger] ids[k]) == targeted_at(
            second,
            ids[k],
        ),
    ensures
        routed_by::<A>(time, table, first, ids) == routed_by::<A>(time, table, second, ids),
    decreases ids.len(),
{
    if ids.len() > 0 {
        let rest = ids.drop_last();
        assert forall|k: int| 0 <= k < rest.len() implies targeted_at(first, #[trigger] rest[k])
            == targeted_at(second, rest[k]) by {
            assert(rest[k] == ids[k]);
        }
        lemma_routed_by_agree::<A>(time, table, first, second, rest);
        assert(ids.last() == ids[ids.len() - 1]);
    }
}

/// A targeted event for an identifier that is not in the table when the
/// tick has reconciled its queue changes nothing: the tick leaves the state
/// that it leaves without the event, wherever in the queue the event stands.
pub proof fn lemma_dangling_target<A: App>(
    s: SchedulerState<A>,
    position: int,
    id: u64,
    payload: A::EntityEvent,
)
    requires
        s.valid(),
        0 <= position <= s.to_route.len(),
        !s.reconciled().entities.contains_key(id),
    ensures
        ({
            let with = SchedulerState {
                to_route: s.to_route.insert(position, Event::EntityEvent(id, payload)),
                ..s
            };
            &&& with.ticked() == s.ticked()
            &&& with.rendered() == s.rendered()
        }),
{
    let event: Routed<A> = Event::EntityEvent(id, payload);
    let with = SchedulerState { to_route: s.to_route.insert(position, event), ..s };
    let start = unreconciled::<A>(s.entities, s.id_seed);
    let front = s.to_route.take(position);
    let back = s.to_route.skip(position);
    assert(s.to_route =~= front + back);
    assert(with.to_route =~= (front + seq![event]) + back);
    lemma_reconcile_concat(start, front, back);
    lemma_reconcile_concat(start, front + seq![event], back);
    lemma_reconcile_concat(start, front, seq![event]);
    let a = reconcile(start, front);
    lemma_reconcile_single(a, event);
    let b = reconcile_one(a, event);
    assert(agree_but_for(a, b, id)) by {
        assert forall|other: u64| other != id implies targeted_at(a.targeted, other)
            == targeted_at(b.targeted, other) by {
            lemma_targeted_at_push(a.targeted, (id, payload), other);
        }
    }
    lemma_agree_reconcile(a, b, id, back);
    let r = s.reconciled();
    let w = with.reconciled();
    assert(agree_but_for(r, w, id));
    lemma_reconcile_finite(start, s.to_route);
    lemma_ordered_ids_exist(r.entities);
    let ids = ordered_ids(r.entities);
    assert forall|k: int| 0 <= k < ids.len() implies targeted_at(r.targeted, #[trigger] ids[k])
        == targeted_at(w.targeted, ids[k]) by {
        assert(ids.to_set().contains(ids[k]));
    }
    lemma_routed_by_agree::<A>(s.time(), r.entities, r.targeted, w.targeted, ids);
    assert(stepped_table::<A>(s.time(), r.entities, r.targeted) =~= stepped_table::<A>(
        s.time(),
        r.entities,
        w.targeted,
    ));
}

/// The targeted events of a queue, each with its target, in emission order.
pub open spec fn targets_of<A: App>(events: Seq<Routed<A>>) -> Seq<(u64, A::EntityEvent)>
    decreases events.len(),
{
    if events.len() == 0 {
        Seq::empty()
    } else {
        match events.last() {
            Event::EntityEvent(id, payload) => targets_of::<A>(events.drop_last()).push(
                (id, payload),
            ),
            _ => targets_of::<A>(events.drop_last()),
        }
    }
}

/// Reconciling appends the queue's targeted events to those already there.
pub proof fn lemma_reconcile_targeted<A: App>(r: Reconciled<A>, events: Seq<Routed<A>>)
    ensures
        reconcile(r, events).targeted == r.targeted + targets_of::<A>(events),
    decreases events.len(),
{
    if events.len() == 0 {
        assert(r.targeted + targets_of::<A>(events) =~= r.targeted);
    } else {
        lemma_reconcile_targeted(r, events.drop_last());
        assert(reconcile(r, events).targeted =~= r.targeted + targets_of::<A>(events));
    }
}

/// The targeted events of two queues on end are those of the first, then
/// those of the second.
pub proof fn lemma_targets_of_concat<A: App>(first: Seq<Routed<A>>, second: Seq<Routed<A>>)
    ensures
        targets_of::<A>(first + second) == targets_of::<A>(first) + targets_of::<A>(second),
    decreases second.len(),
{
    if second.len() == 0 {
        assert(first + second =~= first);
        assert(targets_of::<A>(first) + targets_of::<A>(second) =~= targets_of::<A>(first));
    } else {
        lemma_targets_of_concat::<A>(first, second.drop_last());
        assert((first + second).drop_last() =~= first + second.drop_last());
        assert((first + second).last() == second.last());
        assert(targets_of::<A>(first + second) =~= targets_of::<A>(first) + targets_of::<A>(
            second,
        ));
    }
}

/// The payloads for an entity in two lists on end are those in the first,
/// then those in the second.
pub proof fn lemma_targeted_at_concat<E>(first: Seq<(u64, E)>, second: Seq<(u64, E)>, id: u64)
    ensures
        targeted_at(first + second, id) == targeted_at(first, id) + targeted_at(second, id),
    decreases second.len(),
{
    if second.len() == 0 {
        assert(first + second =~= first);
        assert(targeted_at(first, id) + targeted_at(second, id) =~= targeted_at(first, id));
    } else {
        lemma_targeted_at_concat(first, second.drop_last(), id);
        assert((first + second).drop_last() =~= first + second.drop_last());
        assert((first + second).last() == second.last());
        assert(targeted_at(first + second, id) =~= targeted_at(first, id) + targeted_at(
            second,
            id,
        ));
    }
}

/// What two runs of entities route is what the first run routes, then what
/// the second routes.
pub proof fn lemma_routed_by_concat<A: App>(
    time: Tick,
    table: Map<u64, A::Entity>,
    targeted: Seq<(u64, A::EntityEvent)>,
    first: Seq<u64>,
    second: Seq<u64>,
)
    ensures
        routed_by::<A>(time, table, targeted, first + second) == routed_by::<A>(
            time,
            table,
            targeted,
            first,
        ) + routed_by::<A>(time, table, targeted, second),
    decreases second.len(),
{
    let whole = routed_by::<A>(time, table, targeted, first + second);
    let left = routed_by::<A>(time, table, targeted, first);
    let right = routed_by::<A>(time, table, targeted, second);
    if second.len() == 0 {
        assert(first + second =~= first);
        assert(left + right =~= left);
    } else {
        lemma_routed_by_concat::<A>(time, table, targeted, first, second.drop_last());
        assert((first + second).drop_last() =~= first + second.drop_last());
        assert((first + second).last() == second.last());
        assert(whole =~= left + right);
    }
}

/// Two events of one queue for one entity reach that entity in the order in
/// which they stand in the queue.
pub proof fn lemma_queue_order_kept<A: App>(
    queue: Seq<Routed<A>>,
    i: int,
    j: int,
    target: u64,
    x: A::EntityEvent,
    y: A::EntityEvent,
)
    requires
        0 <= i < j < queue.len(),
        queue[i] == Event::<u64, A::Entity, A::EntityEvent, A::RenderEvent>::EntityEvent(target, x),
        queue[j] == Event::<u64, A::Entity, A::EntityEvent, A::RenderEvent>::EntityEvent(target, y),
    ensures
        ({
            let received = targeted_at(targets_of::<A>(queue), target);
            exists|p: int, q: int|
                0 <= p < q < received.len() && received[p] == x && received[q] == y
        }),
{
    let front = queue.take(i);
    let middle = queue.subrange(i + 1, j);
    let back = queue.skip(j + 1);
    let first = seq![queue[i]];
    let second = seq![queue[j]];
    assert(queue =~= front + first + middle + second + back);
    lemma_targets_of_concat::<A>(front + first + middle + second, back);
    lemma_targets_of_concat::<A>(front + first + middle, second);
    lemma_targets_of_concat::<A>(front + first, middle);
    lemma_targets_of_concat::<A>(front, first);
    assert(targets_of::<A>(first) =~= seq![(target, x)]) by {
        reveal_with_fuel(targets_of, 2);
        assert(first.drop_last() =~= Seq::<Routed<A>>::empty());
        assert(first.last() == queue[i]);
    }
    assert(targets_of::<A>(second) =~= seq![(target, y)]) by {
        reveal_with_fuel(targets_of, 2);
        assert(second.drop_last() =~= Seq::<Routed<A>>::empty());
        assert(second.last() == queue[j]);
    }
    let tf = targets_of::<A>(front);
    let tm = targets_of::<A>(middle);
    let tb = targets_of::<A>(back);
    let one = seq![(target, x)];
    let two = seq![(target, y)];
    lemma_targeted_at_concat(tf + one + tm + two, tb, target);
    lemma_targeted_at_concat(tf + one + tm, two, target);
    lemma_targeted_at_concat(tf + one, tm, target);
    lemma_targeted_at_concat(tf, one, target);
    lemma_targeted_at_push(Seq::<(u64, A::EntityEvent)>::empty(), (target, x), target);
    lemma_targeted_at_push(Seq::<(u64, A::EntityEvent)>::empty(), (target, y), target);
    assert(one =~= Seq::<(u64, A::EntityEvent)>::empty().push((target, x)));
    assert(two =~= Seq::<(u64, A::EntityEvent)>::empty().push((target, y)));
    let received = targeted_at(targets_of::<A>(queue), target);
    let p = targeted_at(tf, target).len() as int;
    let q = p + 1 + targeted_at(tm, target).len();
    assert(received[p] == x);
    assert(received[q] == y);
}

/// Two events for one entity that an entity routes from its simulation in
/// one tick reach their target at the next tick in the order in which they
/// were pushed.
pub proof fn lemma_targeted_order<A: App>(
    s: SchedulerState<A>,
    sender: u64,
    i: int,
    j: int,
    target: u64,
    x: A::EntityEvent,
    y: A::EntityEvent,
)
    requires
        s.valid(),
        s.reconciled().entities.contains_key(sender),
        ({
            let r = s.reconciled();
            let taken = fold_all::<A>(targeted_at(r.targeted, sender), sender, r.entities[sender]).0;
            let pushed = A::simulated(s.time(), r.entities, sender, taken).1;
            &&& 0 <= i < j < pushed.len()
            &&& pushed[i] == Event::<u64, A::Entity, A::EntityEvent, A::RenderEvent>::EntityEvent(
                target,
                x,
            )
            &&& pushed[j] == Event::<u64, A::Entity, A::EntityEvent, A::RenderEvent>::EntityEvent(
                target,
                y,
            )
        }),
    ensures
        ({
            let received = targeted_at(s.ticked().reconciled().targeted, target);
            exists|p: int, q: int|
                0 <= p < q < received.len() && received[p] == x && received[q] == y
        }),
{
    let r = s.reconciled();
    let time = s.time();
    lemma_reconcile_finite(unreconciled::<A>(s.entities, s.id_seed), s.to_route);
    lemma_ordered_ids_exist(r.entities);
    let ids = ordered_ids(r.entities);
    assert(ids.to_set().contains(sender));
    let k = choose|k: int| 0 <= k < ids.len() && ids[k] == sender;
    let before = ids.take(k);
    let after = ids.skip(k + 1);
    let single = seq![sender];
    assert(ids =~= before + single + after);
    lemma_routed_by_concat::<A>(time, r.entities, r.targeted, before + single, after);
    lemma_routed_by_concat::<A>(time, r.entities, r.targeted, before, single);
    let own = stepped::<A>(time, r.entities, sender, targeted_at(r.targeted, sender)).1;
    assert(routed_by::<A>(time, r.entities, r.targeted, single) =~= own) by {
        reveal_with_fuel(routed_by, 2);
        assert(single.drop_last() =~= Seq::<u64>::empty());
        assert(single.last() == sender);
    }
    let taken = fold_all::<A>(targeted_at(r.targeted, sender), sender, r.entities[sender]);
    let pushed = A::simulated(time, r.entities, sender, taken.0).1;
    let queue = s.ticked().to_route;
    let offset = routed_by::<A>(time, r.entities, r.targeted, before).len() + taken.1.len();
    assert(queue[offset + i] == pushed[i]);
    assert(queue[offset + j] == pushed[j]);
    lemma_queue_order_kept::<A>(queue, offset + i, offset + j, target, x, y);
    let next = s.ticked();
    lemma_reconcile_targeted(unreconciled::<A>(next.entities, next.id_seed), queue);
    assert(next.reconciled().targeted =~= targets_of::<A>(queue));
}

/// Ticks never touch the tick rate or the accumulator; they count the tick
/// number up by one each, at most `count` times, and exactly `count` times
/// where the scheduler still runs afterwards.
pub proof fn lemma_run_counts<A: App>(s: SchedulerState<A>, count: nat)
    requires
        s.tick + count <= u64::MAX,
    ensures
        s.run(count).tick_rate == s.tick_rate,
        s.run(count).accu_ns == s.accu_ns,
        s.tick <= s.run(count).tick <= s.tick + count,
        s.run(count).running ==> s.running && s.run(count).tick == s.tick + count,
        s.running && count > 0 ==> s.run(count).tick > s.tick,
        !s.running ==> s.run(count) == s,
    decreases count,
{
    if count > 0 && s.running {
        lemma_run_counts(s.ticked(), (count - 1) as nat);
    }
}

/// Ticks keep a valid state valid.
pub proof fn lemma_run_valid<A: App>(s: SchedulerState<A>, count: nat)
    requires
        s.valid(),
    ensures
        s.run(count).valid(),
    decreases count,
{
    if count > 0 && s.running {
        lemma_reconcile_finite(unreconciled::<A>(s.entities, s.id_seed), s.to_route);
        let r = s.reconciled();
        assert(s.ticked().entities.dom() =~= r.entities.dom());
        lemma_run_valid(s.ticked(), (count - 1) as nat);
    }
}

/// Ticks in two runs are the ticks of one run.
pub proof fn lemma_run_split<A: App>(s: SchedulerState<A>, first: nat, second: nat)
    ensures
        s.run(first + second) == s.run(first).run(second),
        s.run_rendered(first + second) == s.run_rendered(first) + s.run(first).run_rendered(
            second,
        ),
    decreases first,
{
    if first == 0 {
        assert(s.run_rendered(first) + s.run(first).run_rendered(second) =~= s.run_rendered(
            second,
        ));
    } else if !s.running {
        lemma_run_halted(s, second);
        lemma_run_halted(s, first + second);
        assert(s.run_rendered(first) + s.run(first).run_rendered(second) =~= Seq::<
            A::RenderEvent,
        >::empty());
    } else {
        lemma_run_split(s.ticked(), (first - 1) as nat, second);
        assert(s.run_rendered(first + second) =~= s.run_rendered(first) + s.run(
            first,
        ).run_rendered(second));
    }
}

/// A scheduler that has shut down does not tick.
pub proof fn lemma_run_halted<A: App>(s: SchedulerState<A>, count: nat)
    requires
        !s.running,
    ensures
        s.run(count) == s,
        s.run_rendered(count) == Seq::<A::RenderEvent>::empty(),
{
}

/// The ticks do not read the accumulator.
pub proof fn lemma_run_ignores_accumulator<A: App>(s: SchedulerState<A>, accu_ns: u64, count: nat)
    ensures
        (SchedulerState { accu_ns, ..s }).run(count) == (SchedulerState {
            accu_ns,
            ..s.run(count)
        }),
        (SchedulerState { accu_ns, ..s }).run_rendered(count) == s.run_rendered(count),
    decreases count,
{
    let other = SchedulerState { accu_ns, ..s };
    if count > 0 && s.running {
        assert(other.ticked() == SchedulerState { accu_ns, ..s.ticked() });
        lemma_run_ignores_accumulator(s.ticked(), accu_ns, (count - 1) as nat);
        assert(other.rendered() == s.rendered());
    }
}

/// The tick count. Of the time in the accumulator and the time that has
/// elapsed, every whole period becomes one tick and the rest stays in the
/// accumulator, below one period; after a shutdown the ticks stop, and what
/// they did not use stays in the accumulator.
pub proof fn lemma_tick_count<A: App>(s: SchedulerState<A>, time_delta_ns: u64)
    requires
        s.valid(),
        s.running,
        s.tick + s.owed(time_delta_ns) <= u64::MAX,
    ensures
        ({
            let after = s.advanced(time_delta_ns);
            let period = period_ns(s.tick_rate) as int;
            let ticks = after.tick - s.tick;
            &&& 0 < period
            &&& 0 <= ticks <= (s.accu_ns + time_delta_ns) / period
            &&& after.accu_ns == s.accu_ns + time_delta_ns - ticks * period
            &&& after.running ==> ticks == (s.accu_ns + time_delta_ns) / period
            &&& after.running ==> after.accu_ns == (s.accu_ns + time_delta_ns) % period
            &&& after.running ==> 0 <= after.accu_ns < period
        }),
{
    lemma_period_positive(s.tick_rate);
    let period = period_ns(s.tick_rate) as int;
    let total = s.accu_ns + time_delta_ns;
    let owed = s.owed(time_delta_ns);
    let ran = s.run(owed);
    lemma_run_counts(s, owed);
    let ticks = ran.tick - s.tick;
    vstd::arithmetic::div_mod::lemma_fundamental_div_mod(total, period);
    vstd::arithmetic::div_mod::lemma_mod_bound(total, period);
    assert(ticks * period <= owed * period) by (nonlinear_arith)
        requires
            0 <= ticks <= owed,
            0 < period,
    ;
    assert(period * owed == owed * period) by (nonlinear_arith);
    if ticks == 0 {
        assert(owed == 0);
        assert(ticks * period == 0) by (nonlinear_arith)
            requires
                ticks == 0,
        ;
    } else {
        assert(ticks * period >= period) by (nonlinear_arith)
            requires
                1 <= ticks,
                0 < period,
        ;
    }
    assert(0 <= total - ticks * period <= u64::MAX);
}

/// Whether two states are the same but for the accumulator, and the same in
/// the accumulator too while the scheduler runs.
pub open spec fn same_simulation<A: App>(a: SchedulerState<A>, b: SchedulerState<A>) -> bool {
    &&& a.entities == b.entities
    &&& a.to_route == b.to_route
    &&& a.id_seed == b.id_seed
    &&& a.tick == b.tick
    &&& a.tick_rate == b.tick_rate
    &&& a.running == b.running
    &&& a.running ==> a.accu_ns == b.accu_ns
}

/// The pacing of the frames does not matter. Two frames, of which only the
/// first brings input, leave the table, the queue, the seed and the tick
/// number that one frame of their joint time leaves, and hand out the same
/// render events; while the scheduler runs the accumulator is the same too.
pub proof fn lemma_pacing<A: App>(
    s: SchedulerState<A>,
    input: Seq<Routed<A>>,
    first_ns: u64,
    second_ns: u64,
)
    requires
        s.valid(),
        first_ns + second_ns <= u64::MAX,
        s.tick + s.owed((first_ns + second_ns) as u64) <= u64::MAX,
    ensures
        ({
            let halfway = s.framed(input, first_ns);
            let paced = halfway.framed(Seq::empty(), second_ns);
            let joint = s.framed(input, (first_ns + second_ns) as u64);
            &&& same_simulation(paced, joint)
            &&& s.frame_rendered(input, first_ns) + halfway.frame_rendered(
                Seq::empty(),
                second_ns,
            ) == s.frame_rendered(input, (first_ns + second_ns) as u64)
        }),
{
    let halfway = s.framed(input, first_ns);
    let paced = halfway.framed(Seq::empty(), second_ns);
    let both = (first_ns + second_ns) as u64;
    let joint = s.framed(input, both);
    if !s.running {
        assert(s.frame_rendered(input, first_ns) + halfway.frame_rendered(
            Seq::empty(),
            second_ns,
        ) =~= s.frame_rendered(input, both));
    } else {
        lemma_period_positive(s.tick_rate);
        let period = period_ns(s.tick_rate) as int;
        let start = s.routed(input);
        let owed_first = start.owed(first_ns);
        let owed_joint = start.owed(both);
        vstd::arithmetic::div_mod::lemma_div_is_ordered(
            s.accu_ns + first_ns,
            s.accu_ns + both,
            period,
        );
        assert(owed_first <= owed_joint);
        let more = (owed_joint - owed_first) as nat;
        lemma_run_split(start, owed_first, more);
        lemma_run_counts(start, owed_first);
        lemma_run_counts(start, owed_joint);
        lemma_tick_count(start, first_ns);
        let ran = start.run(owed_first);
        if !halfway.running {
            lemma_run_halted(ran, more);
            assert(s.frame_rendered(input, first_ns) + halfway.frame_rendered(
                Seq::empty(),
                second_ns,
            ) =~= s.frame_rendered(input, both));
        } else {
            assert(halfway.routed(Seq::empty()) == halfway) by {
                assert(halfway.to_route + Seq::<Routed<A>>::empty() =~= halfway.to_route);
            }
            let owed_second = halfway.owed(second_ns);
            assert(owed_second == more) by {
                lemma_owed_adds(s.accu_ns + first_ns, second_ns as int, period);
            }
            lemma_run_valid(start, owed_first);
            lemma_run_ignores_accumulator(ran, halfway.accu_ns, owed_second);
            assert(halfway == SchedulerState { accu_ns: halfway.accu_ns, ..ran });
            lemma_run_counts(halfway, owed_second);
            lemma_tick_count(halfway, second_ns);
            lemma_tick_count(start, both);
            let ticks_first = halfway.tick - start.tick;
            let ticks_second = paced.tick - halfway.tick;
            assert((ticks_first + ticks_second) * period == ticks_first * period + ticks_second
                * period) by (nonlinear_arith);
        }
    }
}

/// The time of several frames together.
pub open spec fn total_ns(deltas: Seq<u64>) -> int
    decreases deltas.len(),
{
    if deltas.len() == 0 {
        0
    } else {
        total_ns(deltas.drop_last()) + deltas.last()
    }
}

/// The state after several frames without input, one after the other.
pub open spec fn framed_each<A: App>(s: SchedulerState<A>, deltas: Seq<u64>) -> SchedulerState<A>
    decreases deltas.len(),
{
    if deltas.len() == 0 {
        s
    } else {
        framed_each(s, deltas.drop_last()).framed(Seq::empty(), deltas.last())
    }
}

/// The render events of those frames, in order.
pub open spec fn rendered_each<A: App>(s: SchedulerState<A>, deltas: Seq<u64>) -> Seq<
    A::RenderEvent,
>
    decreases deltas.len(),
{
    if deltas.len() == 0 {
        Seq::empty()
    } else {
        rendered_each(s, deltas.drop_last()) + framed_each(s, deltas.drop_last()).frame_rendered(
            Seq::empty(),
            deltas.last(),
        )
    }
}

/// A frame does not read the accumulator of a scheduler that has shut down.
proof fn lemma_frame_of_same<A: App>(a: SchedulerState<A>, b: SchedulerState<A>, delta_ns: u64)
    requires
        same_simulation(a, b),
    ensures
        same_simulation(a.framed(Seq::empty(), delta_ns), b.framed(Seq::empty(), delta_ns)),
        a.frame_rendered(Seq::empty(), delta_ns) == b.frame_rendered(Seq::empty(), delta_ns),
{
    if a.running {
        assert(a == b);
    }
}

/// However the time after the input is cut into frames, the simulation is
/// the one that a single frame of all that time gives: the same table, queue,
/// seed, tick number and render events, and the same accumulator while the
/// scheduler runs.
pub proof fn lemma_pacing_many<A: App>(
    s: SchedulerState<A>,
    input: Seq<Routed<A>>,
    first_ns: u64,
    deltas: Seq<u64>,
)
    requires
        s.valid(),
        first_ns + total_ns(deltas) <= u64::MAX,
        s.tick + s.owed((first_ns + total_ns(deltas)) as u64) <= u64::MAX,
    ensures
        same_simulation(
            framed_each(s.framed(input, first_ns), deltas),
            s.framed(input, (first_ns + total_ns(deltas)) as u64),
        ),
        s.frame_rendered(input, first_ns) + rendered_each(s.framed(input, first_ns), deltas)
            == s.frame_rendered(input, (first_ns + total_ns(deltas)) as u64),
    decreases deltas.len(),
{
    let begun = s.framed(input, first_ns);
    if deltas.len() == 0 {
        assert(s.frame_rendered(input, first_ns) + rendered_each(begun, deltas)
            =~= s.frame_rendered(input, first_ns));
    } else {
        let earlier = deltas.drop_last();
        let last = deltas.last();
        lemma_total_ns_bounds(earlier);
        let sooner = (first_ns + total_ns(earlier)) as u64;
        let whole = (first_ns + total_ns(deltas)) as u64;
        assert(whole == sooner + last);
        lemma_period_positive(s.tick_rate);
        vstd::arithmetic::div_mod::lemma_div_is_ordered(
            s.accu_ns + sooner,
            s.accu_ns + whole,
            period_ns(s.tick_rate) as int,
        );
        lemma_pacing_many(s, input, first_ns, earlier);
        lemma_pacing(s, input, sooner, last);
        lemma_frame_of_same(framed_each(begun, earlier), s.framed(input, sooner), last);
        assert(s.frame_rendered(input, first_ns) + rendered_each(begun, deltas) =~= (
        s.frame_rendered(input, first_ns) + rendered_each(begun, earlier)) + framed_each(
            begun,
            earlier,
        ).frame_rendered(Seq::empty(), last));
    }
}

/// No time of frames is negative.
proof fn lemma_total_ns_bounds(deltas: Seq<u64>)
    ensures
        0 <= total_ns(deltas),
    decreases deltas.len(),
{
    if deltas.len() > 0 {
        lemma_total_ns_bounds(deltas.drop_last());
    }
}

/// The periods in a whole are the periods in its first part, and those in
/// what the first part leaves together with the second.
proof fn lemma_owed_adds(first: int, second: int, period: int)
    requires
        0 <= first,
        0 <= second,
        0 < period,
    ensures
        (first + second) / period == first / period + (first % period + second) / period,
{
    vstd::arithmetic::div_mod::lemma_fundamental_div_mod(first, period);
    vstd::arithmetic::div_mod::lemma_fundamental_div_mod(first % period + second, period);
    vstd::arithmetic::div_mod::lemma_mod_bound(first, period);
    vstd::arithmetic::div_mod::lemma_mod_bound(first % period + second, period);
    let q1 = first / period;
    let r1 = first % period;
    let q2 = (r1 + second) / period;
    let r2 = (r1 + second) % period;
    assert(first + second == period * (q1 + q2) + r2) by (nonlinear_arith)
        requires
            first == period * q1 + r1,
            r1 + second == period * q2 + r2,
    ;
    vstd::arithmetic::div_mod::lemma_fundamental_div_mod_converse(
        first + second,
        period,
        q1 + q2,
        r2,
    );
}

} // verus!
