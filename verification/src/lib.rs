//! Verified core of the Garupa API service: the protobuf wire-format reader
//! and schema-driven decoder, the AES-128-CBC response decryption, and the
//! API-key decision of the authentication middleware.

pub mod api;
pub mod crypto;
pub mod proto;
