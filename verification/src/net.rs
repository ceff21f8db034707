//! Network addresses as plain values.
use vstd::prelude::*;

use crate::text::text_eq;

verus! {

/// An IP address, as the number that its bytes stand for in network order.
#[derive(Debug, Clone, Copy, PartialEq, Eq, Hash, Structural)]
pub enum IpAddress {
    V4(u32),
    V6(u128),
}

impl IpAddress {
    pub fn is_ipv4(&self) -> (r: bool)
        ensures
            r == (self is V4),
    {
        matches!(*self, IpAddress::V4(_))
    }
}

/// An IP address with a port.
#[allow(inconsistent_fields)]
#[derive(Debug, Clone, Copy, PartialEq, Eq, Hash, Structural)]
pub enum SocketAddress {
    V4 { ip: u32, port: u16 },
    V6 { ip: u128, port: u16, flowinfo: u32, scope_id: u32 },
}

impl SocketAddress {
    pub open spec fn spec_ip(self) -> IpAddress {
        match self {
            SocketAddress::V4 { ip, .. } => IpAddress::V4(ip),
            SocketAddress::V6 { ip, .. } => IpAddress::V6(ip),
        }
    }

    pub fn ip(&self) -> (r: IpAddress)
        ensures
            r == self.spec_ip(),
    {
        match *self {
            SocketAddress::V4 { ip, .. } => IpAddress::V4(ip),
            SocketAddress::V6 { ip, .. } => IpAddress::V6(ip),
        }
    }
}

/// The address family of an IP address.
#[derive(Debug, Clone, Copy, PartialEq, Eq, Hash, Structural)]
pub enum Family {
    V4,
    V6,
}

/// Where an endpoint is reached: at its own address, or through an agent that
/// forwards to its outer address.
#[derive(Debug, Clone, Copy, PartialEq, Eq, Hash, Structural)]
pub enum EndpointAddr {
    Direct { addr: SocketAddress },
    Mediate { agent: SocketAddress, outer: SocketAddress },
}

impl EndpointAddr {
    pub fn direct(addr: SocketAddress) -> (r: Self)
        ensures
            r == (EndpointAddr::Direct { addr }),
    {
        EndpointAddr::Direct { addr }
    }

    pub fn with_agent(agent: SocketAddress, outer: SocketAddress) -> (r: Self)
        ensures
            r == (EndpointAddr::Mediate { agent, outer }),
    {
        EndpointAddr::Mediate { agent, outer }
    }
}

/// Who told of an endpoint.
#[derive(Debug, PartialEq, Eq)]
pub enum Source {
    Mdns { nic: String, family: Family },
    Http { server: String },
    H3 { server: String },
    System,
    Dht,
}

/// The contents of a [`Source`].
pub enum SourceModel {
    Mdns { nic: Seq<char>, family: Family },
    Http { server: Seq<char> },
    H3 { server: Seq<char> },
    System,
    Dht,
}

impl View for Source {
    type V = SourceModel;

    open spec fn view(&self) -> SourceModel {
        match self {
            Source::Mdns { nic, family } => SourceModel::Mdns { nic: nic@, family: *family },
            Source::Http { server } => SourceModel::Http { server: server@ },
            Source::H3 { server } => SourceModel::H3 { server: server@ },
            Source::System => SourceModel::System,
            Source::Dht => SourceModel::Dht,
        }
    }
}

impl Clone for Source {
    fn clone(&self) -> (r: Self)
        ensures
            r@ == self@,
    {
        match self {
            Source::Mdns { nic, family } => Source::Mdns { nic: nic.clone(), family: *family },
            Source::Http { server } => Source::Http { server: server.clone() },
            Source::H3 { server } => Source::H3 { server: server.clone() },
            Source::System => Source::System,
            Source::Dht => Source::Dht,
        }
    }
}

impl Source {
    /// Whether two sources are the same.
    pub fn same(&self, other: &Source) -> (r: bool)
        ensures
            r == (self@ == other@),
    {
        match (self, other) {
            (Source::Mdns { nic: a, family: f }, Source::Mdns { nic: b, family: g }) => text_eq(
                a.as_str(),
                b.as_str(),
            ) && *f == *g,
            (Source::Http { server: a }, Source::Http { server: b }) => text_eq(
                a.as_str(),
                b.as_str(),
            ),
            (Source::H3 { server: a }, Source::H3 { server: b }) => text_eq(
                a.as_str(),
                b.as_str(),
            ),
            (Source::System, Source::System) => true,
            (Source::Dht, Source::Dht) => true,
            _ => false,
        }
    }
}

/// A socket address is at the IP address that it is written with, and of its kind.
pub proof fn law_socket_addresses_are_at_their_ip_address(addr: SocketAddress)
    ensures
        addr matches SocketAddress::V4 { ip, .. } ==> addr.spec_ip() == IpAddress::V4(ip),
        addr matches SocketAddress::V6 { ip, .. } ==> addr.spec_ip() == IpAddress::V6(ip),
        addr is V4 <==> addr.spec_ip() is V4,
{
}

/// Every source is the one of its own kind.
pub proof fn law_sources_are_of_their_own_kind(source: Source)
    ensures
        source matches Source::Mdns { nic, family } ==> source@ == (SourceModel::Mdns {
            nic: nic@,
            family,
        }),
        source matches Source::Http { server } ==> source@ == (SourceModel::Http {
            server: server@,
        }),
        source matches Source::H3 { server } ==> source@ == (SourceModel::H3 { server: server@ }),
        source is System ==> source@ is System,
        source is Dht ==> source@ is Dht,
{
}

} // verus!
