//! What a long-running copy shows of itself.
pub mod copy;
pub mod event;
pub mod format;
pub mod reporter;
pub mod rows;
pub mod speed;
