pub mod cycle;
pub mod error;
pub mod orientation;
pub mod plane;

pub use cycle::is_same_cycle;
pub use error::GeometryError;
pub use orientation::Comparison;
pub use orientation::Orientation2D;
pub use plane::Position;
