pub mod convex_polygon;
pub mod polygon;

pub use convex_polygon::ConvexPolygon;
pub use polygon::Polygon;
