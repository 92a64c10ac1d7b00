//! Protobuf wire format: raw field scanning, schema descriptors, the
//! schema-driven decoder, and the raw dumps and field surveys used for schema
//! discovery.

pub mod decoder;
pub mod dump;
pub mod schema;
pub mod usage;
pub mod wire;
