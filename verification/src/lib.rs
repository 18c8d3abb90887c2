pub mod grid;
pub mod snapshot;
pub mod universe;
