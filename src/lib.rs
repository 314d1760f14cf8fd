//! The integer core of a 2-D smoothed-particle-hydrodynamics simulator: the
//! uniform-grid neighbour index, the neighbour sets of a step, and the
//! population requests (spawn and despawn) applied at the end of a step.
use vstd::prelude::*;

pub mod events;
pub mod grid;
pub mod population;

pub use events::{Event, EventQueue};
pub use grid::{compute_neighbours, Grid, Point};
pub use population::{plan_despawn, retain_kept, PopulationError};

verus! {

} // verus!
