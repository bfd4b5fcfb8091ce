//! A versioned key-value storage engine: an in-memory level kept in a skip
//! list, and immutable sorted tables behind bloom filters and sparse indices.

pub mod collections;
pub mod model;
pub mod order;
pub mod shell;
pub mod state;
pub mod store;

pub use crate::state::BeatriceState;
