//! Events that a transition may emit, and the sinks that collect them.

use vstd::prelude::*;

verus! {

/// A directive for the scheduler, emitted by a transition or by the input
/// collaborator.
#[derive(Debug, Copy, Clone, PartialEq, PartialOrd)]
pub enum Event<Id, Entity, EntityEvent, RenderEvent> {
    /// Stop the scheduler once the tick that applies this event is complete.
    Shutdown,
    /// Insert the entity at the identifier.
    SpawnEvent(Id, Entity),
    /// Remove the entity at the identifier, if there is one.
    Delete(Id),
    /// Remove every entity whose identifier lies between the two, both included.
    DeleteRange(Id, Id),
    /// Deliver the payload to the entity at the identifier, if there is one.
    EntityEvent(Id, EntityEvent),
    /// A value for the presentation collaborator; the scheduler only carries it.
    RenderEvent(RenderEvent),
}

/// A write-only accumulator: every pushed value is kept, in push order.
pub struct Sink<A> {
    pub events: Vec<A>,
}

impl<A> View for Sink<A> {
    type V = Seq<A>;

    open spec fn view(&self) -> Seq<A> {
        self.events@
    }
}

impl<A> Sink<A> {
    pub fn empty() -> (sink: Sink<A>)
        ensures
            sink@ == Seq::<A>::empty(),
    {
        Sink { events: Vec::new() }
    }

    pub fn clear(&mut self)
        ensures
            final(self)@ == Seq::<A>::empty(),
    {
        self.events.clear()
    }

    pub fn push(&mut self, a: A)
        ensures
            final(self)@ == old(self)@.push(a),
    {
        self.events.push(a);
    }

    pub fn push_opt(&mut self, a: Option<A>)
        ensures
            final(self)@ == match a {
                Some(value) => old(self)@.push(value),
                None => old(self)@,
            },
    {
        match a {
            Some(a) => self.push(a),
            None => (),
        }
    }
}

/// Two independently ordered sinks: one for the events that the calling
/// entity applies to itself within the tick, one for the events that are
/// routed through the scheduler at the next tick.
pub struct CombinedSink<A, B> {
    pub mine: Sink<A>,
    pub routed: Sink<B>,
}

impl<A, B> CombinedSink<A, B> {
    pub fn clear(&mut self)
        ensures
            final(self).mine@ == Seq::<A>::empty(),
            final(self).routed@ == Seq::<B>::empty(),
    {
        self.mine.clear();
        self.routed.clear();
    }

    pub fn empty() -> (sink: CombinedSink<A, B>)
        ensures
            sink.mine@ == Seq::<A>::empty(),
            sink.routed@ == Seq::<B>::empty(),
    {
        CombinedSink { mine: Sink::empty(), routed: Sink::empty() }
    }
}

} // verus!
