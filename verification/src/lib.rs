//! Flattening of nested value trees into flat, path-keyed mappings.

pub mod error;
pub mod flat_map;
pub mod laws;
pub mod order;
pub mod path;
pub mod ser;
pub mod value;
