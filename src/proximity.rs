//! Which birds a bird aligns with, and the ways a configuration can be refused.
use vstd::prelude::*;

verus! {

/// How a bird picks the birds it aligns with (itself included).
#[derive(Clone, Copy, Debug, PartialEq, Eq, Structural)]
pub enum Proximity {
    /// The `k` nearest birds, nearest grid ring first and lower index first
    /// within a ring.
    Neighbors(usize),
    /// Every bird closer than this radius, in position units.
    Radius(u32),
}

/// A simulation parameter out of range.
#[derive(Clone, Copy, Debug, PartialEq, Eq, Structural)]
pub enum ConfigError {
    /// A flock needs at least one bird.
    NoBirds,
    /// More birds than the heading sums can hold.
    TooManyBirds,
    /// `Neighbors(0)` would give every bird nobody to align with.
    NoNeighbors,
    /// `Radius(0)` would give every bird nobody to align with.
    ZeroRadius,
}

} // verus!
