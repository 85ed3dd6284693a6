//! The stages a floor builder passes through. Each stage has a module of
//! its own, which holds the steps that lead on from it.

use vstd::prelude::*;

pub mod blank;
pub mod drawable;
pub mod filled;
pub mod has_borders;
pub mod has_connections;
pub mod has_secret_connections;
pub mod new;
pub mod random_filled;
pub mod smoothed;

verus! {

/// Marks a type as a stage of a floor builder.
pub trait FloorBuilderState {

}

/// Marks the stages whose floor can be smoothed.
pub trait Smoothable: FloorBuilderState {

}

} // verus!
