pub mod building;
pub mod finding;
pub mod geo;
pub mod tree;
pub mod types;
pub mod updating;

pub use geo::Point;
pub use tree::{Item, Node};
pub use types::{Axis, Nearest};
