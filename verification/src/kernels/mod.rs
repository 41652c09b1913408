pub mod generic;
pub mod grid;

pub use generic::GenericKernel2D;
pub use grid::GridKernel2D;
