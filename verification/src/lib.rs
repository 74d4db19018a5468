//! QuickHull: convex-hull vertex indices of a finite set of points in the
//! plane.
//!
//! Given a sequence of points, [`run`] appends to an accumulator the indices
//! of the points that the QuickHull refinement discovers as hull vertices:
//! first the leftmost and rightmost points, then the vertices of the upper
//! and lower chains in discovery order.  Coordinates are exact machine
//! integers, so every side-of-line decision the algorithm takes is computed
//! exactly and is proved against the mathematical cross product.

pub mod extremes;
pub mod geometry;
pub mod hull;
pub mod partition;

pub use extremes::find_extreme;
pub use geometry::Point;
pub use geometry::compute_dist;
pub use hull::run;
pub use hull::sub_quickhull;
pub use partition::get_dist_set;
