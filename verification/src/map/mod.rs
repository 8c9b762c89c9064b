//! Preparation of the simulation map: weights for the random choice of
//! starting points, and the random scenario set-up.
pub mod internal;
