//! The decisions of the server.
pub mod config;
pub mod error;
pub mod geo;
pub mod index;
pub mod ocsp;
pub mod policy;
pub mod publish;
pub mod query;
pub mod rank;
pub mod ranking;
pub mod redis_lookup;
pub mod redis_publish;
pub mod redis_state;
pub mod service;
pub mod storage;
