pub mod kernel;
pub mod number;
pub mod point2d;

pub use kernel::DefaultExactKernel;
pub use kernel::DefaultKernel;
pub use kernel::ExactPredicates2D;
pub use kernel::Kernel2D;
pub use kernel::Operations2D;
pub use kernel::RealOperations2D;
pub use number::FieldNumber;
pub use number::RealFieldNumber;
pub use point2d::Point2D;
