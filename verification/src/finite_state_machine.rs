//! A traffic light as a finite state machine, and a crosswalk holding one.

use vstd::prelude::*;

verus! {

/// The three lamp states, cycling green, yellow, red.
#[derive(Debug, PartialEq, Eq, Structural, Clone, Copy)]
pub enum TrafficLight {
    Green,
    Yellow,
    Red,
}

/// The state after one transition.
pub open spec fn spec_next_light(l: TrafficLight) -> TrafficLight {
    match l {
        TrafficLight::Green => TrafficLight::Yellow,
        TrafficLight::Yellow => TrafficLight::Red,
        TrafficLight::Red => TrafficLight::Green,
    }
}

impl TrafficLight {
    /// A fresh light shows green.
    pub fn new() -> (r: Self)
        ensures
            r == TrafficLight::Green,
    {
        Self::Green
    }

    /// The state following this one.
    pub fn next(&self) -> (r: Self)
        ensures
            r == spec_next_light(*self),
    {
        match self {
            Self::Green => Self::Yellow,
            Self::Yellow => Self::Red,
            Self::Red => Self::Green,
        }
    }
}

/// A crosswalk, driven by its traffic light.
#[derive(Debug)]
pub struct Crosswalk {
    pub light: TrafficLight,
}

impl Crosswalk {
    /// A fresh crosswalk starts with a fresh light.
    pub fn new() -> (r: Self)
        ensures
            r.light == TrafficLight::Green,
    {
        Crosswalk { light: TrafficLight::new() }
    }

    /// Advances the light by one transition.
    pub fn next(&mut self)
        ensures
            final(self).light == spec_next_light(old(self).light),
    {
        self.light = self.light.next();
    }
}

} // verus!
