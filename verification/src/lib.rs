//! Shortest Euclidean paths between two points of a planar navigation mesh:
//! a region cut into convex polygons whose edges border an obstacle or
//! another polygon.
//!
//! Coordinates and lengths are fixed-point numbers: an `i64` counts
//! millionths of a world unit.  Nothing in the library rounds but the
//! division and the square root of [`numeric`], each to the nearest step.
//!
//! * [`helpers`] is the geometric kernel.
//! * [`mesh`] holds vertices and polygons and locates points.
//! * [`loader`] reads a mesh from the lines of a file.
//! * [`funnel`] cuts the far edges of a polygon by the rays of a funnel.
//! * [`search`] is the best-first search, over the root history of
//!   [`history`].
//! * [`laws`] states what holds of every query.
//!
//! Every executable function is verified against a contract stated over
//! mathematical integers, sequences and maps.  The one thing taken on
//! trust is the hash map behind the root history.

pub mod funnel;
pub mod helpers;
pub mod history;
pub mod laws;
pub mod loader;
pub mod mesh;
pub mod node;
pub mod numeric;
pub mod search;

pub use helpers::Point;
pub use mesh::{Mesh, Polygon, Vertex};
pub use node::Path;
pub use numeric::{COORD_MAX, REACH, UNIT};
