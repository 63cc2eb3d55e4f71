//! What an Iceberg table looks like in object storage.
pub mod avro;
pub mod avro_schema;
pub mod container;
pub mod ident;
pub mod layout;
pub mod manifest;
pub mod metadata;
pub mod model;
