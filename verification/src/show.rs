//! Looking at tables without changing anything: what is printed.
pub mod grid;
pub mod schema;
pub mod snapshot;
pub mod tables;
pub mod version;
