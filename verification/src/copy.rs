//! Copying tables from one place in object storage to another.
pub mod file;
pub mod moved;
pub mod namespace;
pub mod paths;
pub mod place;
pub mod plan;
pub mod progress;
pub mod run;
pub mod table;
pub mod transfer;
