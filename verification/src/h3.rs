//! Lookup and publication over HTTP/3.
pub mod cache;
pub mod lookup;
pub mod publish;
pub mod request;
