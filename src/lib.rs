//! JSON Pointer lookups on `serde_json::Value`, read-only and mutable.

pub mod json;
pub mod pointer;
pub mod token;

pub use pointer::{ptr, ptr_mut};
