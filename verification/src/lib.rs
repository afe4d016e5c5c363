//! A travelling-salesman solving library over fixed-point plane coordinates.
//!
//! A `CityStore` holds an ordered, non-empty list of named points. Three
//! strategies produce a closed `Tour` over all cities: exhaustive search
//! (guaranteed optimal), simulated annealing, and hill climbing (both
//! time-boxed local searches). City lists can be read from and written to
//! comma-separated rows, and random subsets can be drawn without replacement.

pub mod geometry;
mod clock;
pub mod codec;
pub mod exact;
pub mod laws;
pub mod local;
pub mod report;
mod rng;
pub mod store;
pub mod tour;

use vstd::prelude::*;

verus! {

} // verus!
