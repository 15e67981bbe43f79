//! Planar convex hulls over exact integer coordinates.
//!
//! Five interchangeable algorithms (Akl-Toussaint pre-filter, Andrew's
//! monotone chain, the Jarvis march, recursive quickhull and Chan's
//! output-sensitive hybrid) share one orientation primitive and one output
//! shape: the hull vertices in counter-clockwise order, with no repeated
//! closing vertex. Coordinates are 64-bit integers bounded so that every
//! cross product, squared distance and doubled polygon area is computed
//! exactly in 128-bit arithmetic.

pub mod akl;
pub mod andrew;
pub mod chan;
pub mod jarvis;
pub mod primitives;
pub mod quickhull;
pub mod visualization;

pub use akl::akl;
pub use andrew::andrew;
pub use chan::chan;
pub use jarvis::jarvis;
pub use quickhull::quickhull;

pub use primitives::area;
pub use primitives::cross2d;
pub use primitives::dist2;
pub use primitives::point_in_octagon;
pub use primitives::side;
pub use primitives::tangent;
pub use primitives::Point;
pub use visualization::SVG;
