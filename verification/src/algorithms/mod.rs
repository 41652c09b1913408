pub mod convex_hull;
pub mod farthest_points;

pub use convex_hull::convex_hull;
pub use convex_hull::convex_hull_exact;
pub use convex_hull::ConvexHull2D;
pub use farthest_points::farthest_points;
