//! Lookup and publication in the local network.
pub mod lookup;
pub mod service;
