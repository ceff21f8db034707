//! Verified core of a dynamic DNS service: the record wire formats, publisher
//! signatures, host rules, record storage and lookup ranking of the server, and
//! the lookup and publication logic of its clients.
pub mod foreign;
pub mod h3;
pub mod http;
pub mod mdns;
pub mod measure;
pub mod net;
pub mod protocol;
pub mod publisher;
pub mod publishers;
pub mod report;
pub mod resolvers;
pub mod server;
pub mod text;
