//! The contract between the scheduler and the application it simulates.

use vstd::prelude::*;
use std::collections::BTreeMap;
use crate::Tick;

pub use crate::event::{CombinedSink, Event, Sink};

pub mod laws;
pub mod model;
pub mod runner;
pub mod targeted;

verus! {

/// The entity table: entities by identifier, walked in ascending order.
pub type TreeMap<K, V> = BTreeMap<K, V>;

/// The counter from which an application may draw fresh identifiers.
pub type IdSeed = u64;

/// The events that an application routes through the scheduler.
pub type Routed<A> = Event<
    u64,
    <A as App>::Entity,
    <A as App>::EntityEvent,
    <A as App>::RenderEvent,
>;

/// The scheduler's only required configuration: ticks per second.
#[derive(Copy, Clone, Eq, PartialEq)]
pub struct SimSettings {
    pub tick_rate: u64,
}

/// What the presentation collaborator is opened with.
pub struct RenderSettings {
    pub dimensions: (u32, u32),
    pub vsync: bool,
    pub title: String,
}

impl Clone for RenderSettings {
    fn clone(&self) -> (copy: RenderSettings)
        ensures
            copy.dimensions == self.dimensions,
            copy.vsync == self.vsync,
            copy.title@ == self.title@,
    {
        RenderSettings {
            dimensions: self.dimensions,
            vsync: self.vsync,
            title: self.title.clone(),
        }
    }
}

/// An application: its entities, its events, and the transitions between them.
///
/// Each transition comes twice: as a spec function, which says what it
/// computes, and as the executable function that computes it. The scheduler's
/// contracts are stated over the spec functions; the default bodies leave them
/// unspecified.
pub trait App {
    type Entity;

    type EntityEvent;

    type RenderEvent;

    /// The entity after it has taken the event, and the events that this emits.
    open spec fn folded(event: Self::EntityEvent, id: u64, entity: Self::Entity) -> (
        Self::Entity,
        Seq<Routed<Self>>,
    ) {
        arbitrary()
    }

    /// What the entity decides in one tick, seeing the whole table: the events
    /// for itself, and the events to route.
    open spec fn simulated(
        time: Tick,
        entities: Map<u64, Self::Entity>,
        id: u64,
        entity: Self::Entity,
    ) -> (Seq<Self::EntityEvent>, Seq<Routed<Self>>) {
        arbitrary()
    }

    /// The identifier to spawn at in place of the requested one, if the
    /// application wants another; the seed is consumed when it does.
    open spec fn modified_id(id: u64, seed: IdSeed) -> Option<u64> {
        arbitrary()
    }

    /// Applies one event to one entity, and pushes what follows from it.
    fn handle_entity_event(
        event: &Self::EntityEvent,
        id: &u64,
        entity: &mut Self::Entity,
        sink: &mut Sink<Routed<Self>>,
    )
        ensures
            *final(entity) == Self::folded(*event, *id, *old(entity)).0,
            final(sink)@ == old(sink)@ + Self::folded(*event, *id, *old(entity)).1,
    ;

    /// Computes one entity's events for this tick from a read-only table.
    fn simulate(
        time: Tick,
        entities: &TreeMap<u64, Self::Entity>,
        id: &u64,
        entity: &Self::Entity,
        sink: &mut CombinedSink<Self::EntityEvent, Routed<Self>>,
    )
        ensures
            final(sink).mine@ == old(sink).mine@ + Self::simulated(
                time,
                entities@,
                *id,
                *entity,
            ).0,
            final(sink).routed@ == old(sink).routed@ + Self::simulated(
                time,
                entities@,
                *id,
                *entity,
            ).1,
    ;

    /// Chooses the identifier for a spawn.
    fn modify_id(id: &u64, seed: IdSeed) -> (new_id: Option<u64>)
        ensures
            new_id == Self::modified_id(*id, seed),
    ;

    /// Copies an entity. Nothing is known of `Clone::clone` on an arbitrary
    /// type, so the application hands out the copy under this contract.
    fn clone_entity(entity: &Self::Entity) -> (copy: Self::Entity)
        ensures
            copy == *entity,
    ;
}

} // verus!
