pub mod approximate_model;
pub mod approximate_shape;
pub mod boundary;
pub mod candidate_sort;
pub mod closing;
pub mod collinear_hull;
pub mod convex_hull_exact_impl;
pub mod convexity;
pub mod convex_hull_impl;
pub mod exact_model;
pub mod hull;
pub mod hull_shape;
pub mod kept_boundary;
pub mod laws;
pub mod wedge;

pub use hull::convex_hull;
pub use hull::convex_hull_exact;
pub use hull::ConvexHull2D;
