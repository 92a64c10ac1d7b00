//! HTTP API support logic.

pub mod auth;
