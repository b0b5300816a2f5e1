//! Read-only rendering of an in-memory [`Value`](crate::value::Value) into
//! JSON and YAML text.

pub mod base64;
pub mod string;
pub mod scalar;
pub mod json;
pub mod yaml;
pub mod exporter;
