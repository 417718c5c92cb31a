use vstd::prelude::*;

verus! {

// The planets whose orbital periods an age can be measured in.

/// The planet Mercury.
pub struct Mercury;

/// The planet Venus.
pub struct Venus;

/// The planet Earth.
pub struct Earth;

/// The planet Mars.
pub struct Mars;

/// The planet Jupiter.
pub struct Jupiter;

/// The planet Saturn.
pub struct Saturn;

/// The planet Uranus.
pub struct Uranus;

/// The planet Neptune.
pub struct Neptune;

} // verus!
