//! What the logic reads of a decoded DNS packet: its answers, and the endpoints
//! that they announce.
use vstd::prelude::*;

use crate::measure::Measure;
use crate::net::{EndpointAddr, SocketAddress};
use crate::protocol::certificate::{
    primary_chain_key, secondary_chain_key, CertificateChainKey, CertificateChainKind,
    CertificateSequence,
};

verus! {

/// An endpoint that a publisher can be reached at.
#[derive(Debug, Clone, Copy, PartialEq, Eq, Hash, Structural)]
pub struct Endpoint {
    pub addr: SocketAddress,
    /// The agent that the endpoint is reached through, where it is not reached
    /// directly.
    pub agent: Option<SocketAddress>,
    /// Whether the endpoint belongs to the primary certificate chain.
    pub main: bool,
    /// The sequence of the certificate chain, where the record names it.
    pub sequence: Option<CertificateSequence>,
    /// Whether the record carries a signature of its own.
    pub signed: bool,
    /// The load as the bits of a single precision number.
    pub load: Option<u32>,
}

/// What tells endpoints apart in a response.
pub type EndpointKey = (SocketAddress, Option<SocketAddress>);

impl Endpoint {
    /// A directly reachable endpoint without any further attribute.
    pub fn direct(addr: SocketAddress) -> (r: Self)
        ensures
            r == (Endpoint {
                addr,
                agent: None,
                main: false,
                sequence: None,
                signed: false,
                load: None,
            }),
    {
        Endpoint { addr, agent: None, main: false, sequence: None, signed: false, load: None }
    }

    pub open spec fn key(self) -> EndpointKey {
        (self.addr, self.agent)
    }

    pub open spec fn measured_load(self) -> Option<Measure> {
        match self.load {
            Some(bits) => Some(Measure::of_single(bits)),
            None => None,
        }
    }

    /// The load as a measure.
    pub fn load_measure(&self) -> (r: Option<Measure>)
        ensures
            r == self.measured_load(),
    {
        match self.load {
            Some(bits) => Some(Measure::from_single_bits(bits)),
            None => None,
        }
    }

    /// The certificate chain that the endpoint belongs to. A missing sequence counts
    /// as zero.
    pub open spec fn chain_key(self) -> CertificateChainKey {
        CertificateChainKey {
            sequence: match self.sequence {
                Some(sequence) => sequence,
                None => CertificateSequence::zero(),
            },
            kind: if self.main {
                CertificateChainKind::Primary
            } else {
                CertificateChainKind::Secondary
            },
        }
    }

    /// The certificate chain that the endpoint belongs to. A missing sequence counts
    /// as zero.
    pub fn certificate_chain_key(&self) -> (r: CertificateChainKey)
        ensures
            r == self.chain_key(),
    {
        let sequence = match self.sequence {
            Some(sequence) => sequence,
            None => CertificateSequence::from_small(0),
        };
        if self.main {
            primary_chain_key(sequence)
        } else {
            secondary_chain_key(sequence)
        }
    }

    /// Where the endpoint is reached.
    pub open spec fn address(self) -> EndpointAddr {
        match self.agent {
            Some(agent) => EndpointAddr::Mediate { agent, outer: self.addr },
            None => EndpointAddr::Direct { addr: self.addr },
        }
    }

    /// Where the endpoint is reached.
    pub fn endpoint_addr(&self) -> (r: EndpointAddr)
        ensures
            r == self.address(),
    {
        match self.agent {
            Some(agent) => EndpointAddr::with_agent(agent, self.addr),
            None => EndpointAddr::direct(self.addr),
        }
    }

    /// The endpoint that is reached at an address, without any further attribute.
    pub open spec fn at(addr: EndpointAddr) -> Self {
        let (addr, agent) = match addr {
            EndpointAddr::Direct { addr } => (addr, None),
            EndpointAddr::Mediate { agent, outer } => (outer, Some(agent)),
        };
        Endpoint { addr, agent, main: false, sequence: None, signed: false, load: None }
    }

    /// The endpoint that is reached at an address, without any further attribute.
    pub fn from_addr(addr: EndpointAddr) -> (r: Self)
        ensures
            r == Self::at(addr),
    {
        let (addr, agent) = match addr {
            EndpointAddr::Direct { addr } => (addr, None),
            EndpointAddr::Mediate { agent, outer } => (outer, Some(agent)),
        };
        Endpoint { addr, agent, main: false, sequence: None, signed: false, load: None }
    }
}

/// An answer of a packet: an endpoint, or data of another kind.
#[derive(Debug, PartialEq, Eq)]
pub struct Answer {
    pub name: String,
    pub endpoint: Option<Endpoint>,
}

/// The contents of an [`Answer`].
pub struct AnswerModel {
    pub name: Seq<char>,
    pub endpoint: Option<Endpoint>,
}

impl View for Answer {
    type V = AnswerModel;

    open spec fn view(&self) -> AnswerModel {
        AnswerModel { name: self.name@, endpoint: self.endpoint }
    }
}

impl Clone for Answer {
    fn clone(&self) -> (r: Self)
        ensures
            r@ == self@,
    {
        Answer { name: self.name.clone(), endpoint: self.endpoint }
    }
}

/// A copy of some answers.
pub fn clone_answers(answers: &Vec<Answer>) -> (r: Vec<Answer>)
    ensures
        crate::protocol::wire::views(r@) == crate::protocol::wire::views(answers@),
{
    let mut out: Vec<Answer> = Vec::new();
    let mut i: usize = 0;
    while i < answers.len()
        invariant
            i <= answers@.len(),
            out@.len() == i,
            forall|j: int| 0 <= j < i ==> (#[trigger] out@[j])@ == answers@[j]@,
        decreases answers@.len() - i,
    {
        out.push(answers[i].clone());
        i = i + 1;
    }
    assert(crate::protocol::wire::views(out@) =~= crate::protocol::wire::views(answers@));
    out
}

/// Putting an address into an endpoint and reading it back gives the address, with its agent
/// where it has one.
pub proof fn law_addresses_round_trip(addr: EndpointAddr)
    ensures
        Endpoint::at(addr).address() == addr,
        Endpoint::at(addr).load is None,
        Endpoint::at(addr).sequence is None,
        !Endpoint::at(addr).main,
        !Endpoint::at(addr).signed,
{
}

/// An endpoint is reached through its agent exactly where it has one, and the agent forwards
/// to the address of the endpoint.
pub proof fn law_agents_forward_to_the_endpoint(endpoint: Endpoint)
    ensures
        match endpoint.address() {
            EndpointAddr::Direct { addr } => endpoint.agent is None && addr == endpoint.addr,
            EndpointAddr::Mediate { agent, outer } => endpoint.agent == Some(agent) && outer
                == endpoint.addr,
        },
{
}

/// Endpoints are told apart in a response exactly where they are reached differently.
pub proof fn law_endpoints_are_told_apart_by_where_they_are_reached(a: Endpoint, b: Endpoint)
    ensures
        a.key() == b.key() <==> a.address() == b.address(),
{
}

/// An endpoint is of the primary chain exactly where it says so. The sequence of its chain is
/// the one that it names, and zero where it names none.
pub proof fn law_endpoints_name_their_chain(endpoint: Endpoint)
    ensures
        endpoint.main <==> endpoint.chain_key().kind == CertificateChainKind::Primary,
        !endpoint.main <==> endpoint.chain_key().kind == CertificateChainKind::Secondary,
        endpoint.sequence matches Some(sequence) ==> endpoint.chain_key().sequence == sequence,
        endpoint.sequence is None ==> endpoint.chain_key().sequence.number() == 0,
{
    crate::protocol::certificate::lemma_numbered(0);
}

} // verus!
