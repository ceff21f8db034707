//! How clients find the endpoints of a name.
pub mod aggregate;
pub mod deferred;
pub mod endpoint_candidates;
pub mod endpoint_group;
pub mod names;
pub mod scheme;
pub mod selector;
pub mod weak;

pub use aggregate::{Resolvers, ResolversError};
pub use names::{DHTTP_H3_DNS_SERVER, DHTTP_HTTP_DNS_SERVER, DHTTP_MDNS_SERVICE};
pub use scheme::{DnsScheme, ParseDnsSchemeError};
