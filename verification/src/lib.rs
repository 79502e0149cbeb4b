//! Deterministic fixed-timestep simulation of an ordered table of entities,
//! driven by events that the entities' transitions emit, and the rules that
//! the presentation and the audio side follow on plain values.

use vstd::prelude::*;
use vstd::std_specs::cmp::PartialOrdSpec;
use core::cmp::Ordering;

pub mod app;
pub mod audio;
pub mod event;
pub mod render;
pub mod resources;

verus! {

/// What `clamp` returns where the order of `T` is the one its specification
/// states: `min` below it, `max` above it, `n` itself between the two or
/// where `n` cannot be compared.
pub open spec fn clamped<T: PartialOrd>(n: T, min: T, max: T) -> T {
    if n.partial_cmp_spec(&min) == Some(Ordering::Less) {
        min
    } else if n.partial_cmp_spec(&max) == Some(Ordering::Greater) {
        max
    } else {
        n
    }
}

/// Holds `n` between `min` and `max`. The lower bound is tested first, so
/// with `max` below `min` a value below both gives `min`.
pub fn clamp<T: PartialOrd>(n: T, min: T, max: T) -> (held: T)
    ensures
        T::obeys_partial_cmp_spec() ==> held == clamped(n, min, max),
        held == n || held == min || held == max,
{
    if n < min {
        min
    } else if n > max {
        max
    } else {
        n
    }
}

/// On integers `clamp` is the usual one.
pub proof fn lemma_clamped_u64(n: u64, min: u64, max: u64)
    ensures
        clamped(n, min, max) == if n < min {
            min
        } else if n > max {
            max
        } else {
            n
        },
        min <= max ==> min <= clamped(n, min, max) <= max,
{
}

/// What a simulation step is told about time. The duration is in whole
/// nanoseconds.
#[derive(Copy, Clone)]
pub struct Tick {
    pub n: u64,
    pub tick_duration_ns: u64,
    pub tick_rate: u64,
}

/// What the presentation is told about time: the ticks simulated so far and
/// how far real time has moved into the next one, in nanoseconds out of
/// `tick_duration_ns`.
#[derive(Copy, Clone)]
pub struct RenderTick {
    pub n: u64,
    pub accu_ns: u64,
    pub tick_duration_ns: u64,
    pub tick_rate: u64,
}

} // verus!
