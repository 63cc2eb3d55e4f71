//! Copy and inspect Iceberg tables in object storage.
pub mod cli;
pub mod clock;
pub mod config;
pub mod copy;
pub mod gzip;
pub mod iceberg;
pub mod json;
pub mod names;
pub mod number;
pub mod order;
pub mod s3_url;
pub mod show;
pub mod sync_log;
pub mod text;
pub mod time;
pub mod ui;
