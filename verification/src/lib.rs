//! Integer core of a 2D occupancy-grid mapper: message headers, line
//! rasterisation over grid cells, evidence fusion into a bounded grid and the
//! nearest-neighbour correspondence table used by scan registration.
//!
//! Everything here works on whole numbers. World coordinates, poses and
//! probabilities belong to the caller, who hands in the cells that points
//! fall in and distances as numbers that can be ordered.
pub mod header;
pub mod icp;
pub mod mapping;
pub mod raster;
pub mod slam_runner;

pub use header::{Header, Time};
pub use icp::{nearest_neighbor, Correspondences, IcpError};
pub use mapping::{Cell, Evidence, MapElement, Mapping};
pub use raster::{bresenham_algorithm, GridIndex};
pub use slam_runner::{plan_registration, Reference, Registration, SCAN_MATCHING_ITERATIONS};
