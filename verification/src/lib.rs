//! Planar convex hulls on the integer lattice, with two membership tests.
//!
//! Points have `i32` coordinates, so every orientation test is exact. The hull
//! of a point set is built by a Graham scan; membership of a query point is
//! decided either by a full scan of the hull's edges or by a bisection over the
//! directions in which the hull's vertices are seen from an interior center.
//! Both tests are verified to answer the same question.

pub mod algebra;
pub mod angular;
pub mod center;
pub mod geometry;
pub mod hull;
pub mod laws;
pub mod membership;
pub mod polygon;
pub mod scan;
pub mod search;
pub mod sort;
pub mod wide;

pub use center::Center;
pub use geometry::{Orientation, Point};
pub use hull::{ConvexPoly, HullError};
pub use membership::{is_point_in_polygon, is_point_in_polygon_fast};
pub use search::{binary_search_angles, SearchError};
