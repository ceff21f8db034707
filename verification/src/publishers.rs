//! How clients publish their endpoints.
pub mod address;
pub mod aggregate;
pub mod packet;
pub mod publisher;
pub mod schedule;

pub use address::{
    AddressSelector, AddressView, FnAddressView, PublishAddressGroup, PublishAddresses,
    PublishScope,
};
pub use aggregate::{PublishReport, PublishersError};
pub use publisher::PublisherError;
pub use schedule::{
    EndpointPublicationLoop, DEFAULT_PUBLISH_INTERVAL, DEFAULT_PUBLISH_TIMEOUT,
};
