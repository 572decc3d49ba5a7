pub mod brick;
pub mod field;
pub mod point;
pub mod utility;

pub use point::Point;
