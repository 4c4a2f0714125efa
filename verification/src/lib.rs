//! Fixed-radius near-neighbor queries over a static set of lattice points,
//! and density-based clustering built on them.
//!
//! Points have integer coordinates; positions measured otherwise are brought
//! onto the lattice by the caller, at a resolution of the caller's choosing.
//! A [`QueryAccelerator`] lays a grid of cells as wide as the query radius
//! over the points, so that the neighbors of a point are found in its own
//! cell and the cells that touch it; [`dbscan`] labels every point with its
//! cluster or as noise. What both return is stated against the plain
//! definition of a neighbor in [`metric`], and proved.

pub mod dbscan;
pub mod density;
pub mod error;
pub mod grid;
pub mod index;
pub mod metric;
pub mod offsets;
pub mod query_accel;
pub mod sample;

pub use crate::dbscan::dbscan;
pub use crate::density::Label;
pub use crate::error::Error;
pub use crate::grid::{add, quantize};
pub use crate::metric::{distance_sq, naive_query};
pub use crate::offsets::{combos, neighborhood};
pub use crate::query_accel::QueryAccelerator;
pub use crate::sample::{random_indices, random_points};
