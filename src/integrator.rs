use vstd::prelude::*;

verus! {

/// What happened to the ray on the current bounce.
#[derive(Clone, Copy, Debug, PartialEq, Eq, Structural)]
pub enum Event {
    /// The ray left the scene.
    Missed,
    /// The ray hit a surface whose material absorbed it.
    Absorbed,
    /// The ray hit a surface and was scattered on.
    Scattered,
}

/// What the estimator does next.
#[derive(Clone, Copy, Debug, PartialEq, Eq, Structural)]
pub enum Outcome {
    /// Trace the scattered ray, with the attenuation multiplied in.
    Continue,
    /// Stop with the attenuation times the background.
    Background,
    /// Stop with black.
    Black,
}

/// The bounce budget of one sample.
#[derive(Clone, Copy, Debug, PartialEq, Eq, Structural)]
pub struct PathState {
    pub remaining: u32,
}

/// The outcome of a bounce with budget left.
pub open spec fn outcome_of(event: Event) -> Outcome {
    match event {
        Event::Missed => Outcome::Background,
        Event::Absorbed => Outcome::Black,
        Event::Scattered => Outcome::Continue,
    }
}

impl PathState {
    /// A sample that may bounce `max_depth` times.
    pub fn new(max_depth: u32) -> (r: PathState)
        ensures
            r.remaining == max_depth,
    {
        PathState { remaining: max_depth }
    }

    /// No bounce is left: the sample ends in black without another intersection test.
    pub fn exhausted(&self) -> (r: bool)
        ensures
            r == (self.remaining == 0),
    {
        self.remaining == 0
    }

    /// Takes the event of one bounce: a miss ends with the background, an absorption with
    /// black, and a scattering continues with one bounce fewer.
    pub fn advance(&mut self, event: Event) -> (r: Outcome)
        requires
            old(self).remaining > 0,
        ensures
            r == outcome_of(event),
            final(self).remaining == old(self).remaining - 1,
    {
        self.remaining = self.remaining - 1;
        match event {
            Event::Missed => Outcome::Background,
            Event::Absorbed => Outcome::Black,
            Event::Scattered => Outcome::Continue,
        }
    }
}

} // verus!
