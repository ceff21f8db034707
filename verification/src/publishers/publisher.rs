//! One publisher.
use vstd::prelude::*;

use crate::mdns::service::{local, HostTable};
use crate::net::{EndpointAddr, Family};
use crate::protocol::certificate::CertificateChainKey;
use crate::protocol::packet::Endpoint;
use crate::protocol::wire::{certificate_chain_key, publisher_chain, views};
use crate::publishers::address::{AddressView, PublishScope, ScopeModel};
use crate::publishers::packet::{all_records, mark_endpoint, marked};
use crate::report::{chain_of, ErrorModel, ErrorReport};
use crate::text::join2;

verus! {

/// The mDNS publishers failed.
#[derive(Debug, PartialEq, Eq)]
pub struct MdnsPublishersError {
    pub errors: Vec<(String, ErrorReport)>,
}

/// Named errors without their causes, each on a line of its own.
pub open spec fn lines_text(entries: Seq<(Seq<char>, ErrorModel)>) -> Seq<char>
    decreases entries.len(),
{
    if entries.len() == 0 {
        Seq::empty()
    } else {
        lines_text(entries.drop_last()) + "\n  - "@ + entries.last().0 + ": "@
            + entries.last().1.message
    }
}

impl MdnsPublishersError {
    pub open spec fn text(self) -> Seq<char> {
        if self.errors@.len() == 0 {
            "no mdns publishers available"@
        } else {
            "all mdns publishers failed"@ + lines_text(crate::report::entries_view(self.errors@))
        }
    }

    pub fn message(&self) -> (r: String)
        ensures
            r@ == self.text(),
    {
        if self.errors.is_empty() {
            return "no mdns publishers available".to_owned();
        }
        let ghost all = crate::report::entries_view(self.errors@);
        let mut out = "all mdns publishers failed".to_owned();
        let ghost head = out@;
        let mut i: usize = 0;
        assert(out@ =~= head + lines_text(all.take(0)));
        while i < self.errors.len()
            invariant
                i <= self.errors@.len(),
                all == crate::report::entries_view(self.errors@),
                out@ == head + lines_text(all.take(i as int)),
            decreases self.errors@.len() - i,
        {
            proof {
                assert(all.take(i + 1).drop_last() =~= all.take(i as int));
                assert(all.take(i + 1).last() == (
                    self.errors@[i as int].0@,
                    self.errors@[i as int].1@,
                ));
            }
            out.append("\n  - ");
            out.append(self.errors[i].0.as_str());
            out.append(": ");
            out.append(self.errors[i].1.message.as_str());
            assert(out@ =~= head + lines_text(all.take(i + 1)));
            i = i + 1;
        }
        assert(all.take(i as int) =~= all);
        out
    }
}

/// Why a publisher failed.
#[allow(inconsistent_fields)]
#[derive(Debug, PartialEq, Eq)]
pub enum PublisherError {
    Publish { publisher: String, source: ErrorReport },
    Mdns { source: MdnsPublishersError },
    MdnsLocalAuthority { source: ErrorReport },
    MdnsAnonymousEndpoint,
    MdnsEncode { source: ErrorReport },
}

impl PublisherError {
    pub open spec fn text(self) -> Seq<char> {
        match self {
            PublisherError::Publish { publisher, .. } => "failed to publish dns records with "@
                + publisher@,
            PublisherError::Mdns { .. } => "all mdns publishers failed"@,
            PublisherError::MdnsLocalAuthority { .. } =>
                "failed to get mdns publisher local authority"@,
            PublisherError::MdnsAnonymousEndpoint =>
                "anonymous endpoint cannot publish mdns records"@,
            PublisherError::MdnsEncode { .. } => "failed to encode mdns dns records"@,
        }
    }

    pub fn message(&self) -> (r: String)
        ensures
            r@ == self.text(),
    {
        match self {
            PublisherError::Publish { publisher, .. } => join2(
                "failed to publish dns records with ",
                publisher.as_str(),
            ),
            PublisherError::Mdns { .. } => "all mdns publishers failed".to_owned(),
            PublisherError::MdnsLocalAuthority { .. } =>
                "failed to get mdns publisher local authority".to_owned(),
            PublisherError::MdnsAnonymousEndpoint =>
                "anonymous endpoint cannot publish mdns records".to_owned(),
            PublisherError::MdnsEncode { .. } => "failed to encode mdns dns records".to_owned(),
        }
    }

    /// What caused the error, outermost first.
    pub open spec fn causes(self) -> Seq<Seq<char>> {
        match self {
            PublisherError::Publish { source, .. } => chain_of(source@),
            PublisherError::Mdns { source } => seq![source.text()],
            PublisherError::MdnsLocalAuthority { source } => chain_of(source@),
            PublisherError::MdnsAnonymousEndpoint => Seq::empty(),
            PublisherError::MdnsEncode { source } => chain_of(source@),
        }
    }

    /// The error with its causes.
    pub fn report(&self) -> (r: ErrorReport)
        ensures
            r@ == (ErrorModel { message: self.text(), sources: self.causes() }),
    {
        let message = self.message();
        match self {
            PublisherError::Publish { source, .. } => ErrorReport::caused_by(
                message.as_str(),
                source,
            ),
            PublisherError::Mdns { source } => {
                let cause = ErrorReport::plain(source.message().as_str());
                assert(chain_of(cause@) =~= self.causes());
                ErrorReport::caused_by(message.as_str(), &cause)
            },
            PublisherError::MdnsLocalAuthority { source } => ErrorReport::caused_by(
                message.as_str(),
                source,
            ),
            PublisherError::MdnsAnonymousEndpoint => ErrorReport::plain(message.as_str()),
            PublisherError::MdnsEncode { source } => ErrorReport::caused_by(
                message.as_str(),
                source,
            ),
        }
    }
}

/// What a publisher publishes: the addresses that a view has for its scope.
pub fn selected_addresses<V: AddressView>(scope: &PublishScope, view: &V) -> (r: Vec<EndpointAddr>)
    requires
        view.ready(),
    ensures
        exists|selector: crate::publishers::address::AddressSelector<'_>|
            selector@ == scope@ && #[trigger] view.may_select(selector, r@),
{
    let selector = scope.selector();
    view.endpoints(selector)
}

/// What a publication comes to: `reply` is what the publisher answered.
pub fn publish_selected_outcome(publisher: &str, reply: Result<(), ErrorReport>) -> (r: Result<
    (),
    PublisherError,
>)
    ensures
        match (reply, r) {
            (Ok(_), Ok(_)) => true,
            (Err(error), Err(PublisherError::Publish { publisher: label, source })) => label@
                == publisher@ && source == error,
            _ => false,
        },
{
    match reply {
        Ok(_) => Ok(()),
        Err(source) => Err(
            PublisherError::Publish { publisher: publisher.to_owned(), source },
        ),
    }
}

/// The scope of an mDNS binding.
pub fn binding_scope(device: &str, family: Family) -> (r: PublishScope)
    ensures
        r@ == (ScopeModel::LocalLink { device: device@, family }),
{
    PublishScope::LocalLink { device: device.to_owned(), family }
}

/// Whether mDNS records can be published: `authority` is what was found out about the
/// local authority.
pub fn mdns_authority<A>(authority: Result<Option<A>, ErrorReport>) -> (r: Result<
    A,
    PublisherError,
>)
    ensures
        r == (match authority {
            Ok(Some(authority)) => Ok::<A, PublisherError>(authority),
            Ok(None) => Err(PublisherError::MdnsAnonymousEndpoint),
            Err(source) => Err(PublisherError::MdnsLocalAuthority { source }),
        }),
{
    match authority {
        Ok(Some(authority)) => Ok(authority),
        Ok(None) => Err(PublisherError::MdnsAnonymousEndpoint),
        Err(source) => Err(PublisherError::MdnsLocalAuthority { source }),
    }
}

/// The records that an authority publishes, of the certificate chain that its leaf
/// certificate names. There are none where it names no chain, or where an address
/// cannot be put into a record.
pub open spec fn authority_records(
    chain: Seq<Seq<u8>>,
    records: Seq<Option<Endpoint>>,
) -> Option<Seq<Endpoint>> {
    match (authority_chain(chain), all_records(records)) {
        (Some(key), Some(all)) => Some(all.map_values(|r: Endpoint| marked(r, Some(key)))),
        _ => None,
    }
}

/// The certificate chain that the leaf of some certificates names.
pub open spec fn authority_chain(chain: Seq<Seq<u8>>) -> Option<CertificateChainKey> {
    if chain.len() == 0 {
        None
    } else {
        publisher_chain(chain[0])
    }
}

/// The records that an authority with some certificates publishes. `records` are those of the
/// addresses, where an address can be put into one.
pub fn dns_endpoints_for_authority(chain: &Vec<Vec<u8>>, records: &Vec<Option<Endpoint>>) -> (r:
    Result<Vec<Endpoint>, PublisherError>)
    ensures
        match (r, authority_records(views(chain@), records@)) {
            (Ok(endpoints), Some(wanted)) => endpoints@ == wanted,
            (Err(PublisherError::MdnsEncode { source }), None) => source@ == (ErrorModel {
                message: if authority_chain(views(chain@)) is None {
                    "certificate names no certificate chain"@
                } else {
                    "failed to encode endpoint address"@
                },
                sources: Seq::empty(),
            }),
            _ => false,
        },
{
    let key = if chain.len() == 0 {
        None
    } else {
        assert(views(chain@)[0] == chain@[0]@);
        certificate_chain_key(chain[0].as_slice())
    };
    let key = match key {
        Some(key) => key,
        None => return Err(
            PublisherError::MdnsEncode {
                source: ErrorReport::plain("certificate names no certificate chain"),
            },
        ),
    };
    let mut out: Vec<Endpoint> = Vec::new();
    let mut i: usize = 0;
    while i < records.len()
        invariant
            i <= records@.len(),
            authority_chain(views(chain@)) == Some(key),
            out@.len() == i,
            forall|j: int|
                0 <= j < i ==> (#[trigger] records@[j]) is Some && out@[j] == marked(
                    records@[j]->0,
                    Some(key),
                ),
        decreases records@.len() - i,
    {
        match records[i] {
            Some(record) => {
                out.push(mark_endpoint(record, Some(&key)));
            },
            None => {
                assert(records@[i as int] is None);
                return Err(
                    PublisherError::MdnsEncode {
                        source: ErrorReport::plain("failed to encode endpoint address"),
                    },
                );
            },
        }
        i = i + 1;
    }
    assert(out@ =~= authority_records(views(chain@), records@)->0);
    Ok(out)
}

/// Publishes endpoints of an authority on one mDNS binding: the binding serves them in place of
/// those that it served under the name. Nothing changes where that fails.
pub fn publish_on_binding(
    table: &mut HostTable,
    name: &str,
    chain: &Vec<Vec<u8>>,
    records: &Vec<Option<Endpoint>>,
) -> (r: Result<(), PublisherError>)
    ensures
        final(table).service_name() == old(table).service_name(),
        r is Ok <==> authority_records(views(chain@), records@) is Some,
        r is Err ==> *final(table) == *old(table) && r->Err_0 is MdnsEncode,
        r is Ok ==> forall|served: Seq<char>| #[trigger]
            final(table).endpoints(served) == (if served == local(
                old(table).service_name(),
                name@,
            ) {
                authority_records(views(chain@), records@)
            } else {
                old(table).endpoints(served)
            }),
{
    let endpoints = match dns_endpoints_for_authority(chain, records) {
        Ok(endpoints) => endpoints,
        Err(e) => return Err(e),
    };
    table.insert_host(name, endpoints);
    Ok(())
}

/// The records of an authority are all its records, in order, each marked with the chain of
/// the first certificate of the authority. They cannot be had where one is missing or the
/// certificate names no chain.
pub proof fn law_records_of_an_authority_name_its_chain(
    chain: Seq<Seq<u8>>,
    records: Seq<Option<Endpoint>>,
    i: int,
)
    ensures
        chain.len() == 0 ==> authority_records(chain, records) is None,
        chain.len() > 0 && publisher_chain(chain[0]) is None ==> authority_records(chain, records)
            is None,
        0 <= i < records.len() && records[i] is None ==> authority_records(chain, records) is None,
        chain.len() > 0 && publisher_chain(chain[0]) is Some && (forall|j: int|
            0 <= j < records.len() ==> (#[trigger] records[j]) is Some) ==> {
            let made = authority_records(chain, records);
            &&& made is Some
            &&& made->0.len() == records.len()
            &&& 0 <= i < records.len() ==> made->0[i].address() == records[i]->0.address()
                && made->0[i].chain_key() == publisher_chain(chain[0])->0
        },
{
    if 0 <= i < records.len() && all_records(records) is Some {
        assert(records[i] is Some);
    }
}

/// Every publisher that failed stands on a line of its own, with its label and its message.
pub proof fn law_failed_publishers_stand_on_their_own_lines(
    entries: Seq<(Seq<char>, ErrorModel)>,
    label: Seq<char>,
    error: ErrorModel,
)
    ensures
        lines_text(Seq::<(Seq<char>, ErrorModel)>::empty()).len() == 0,
        lines_text(entries.push((label, error))) == lines_text(entries) + seq![
            '\n',
            ' ',
            ' ',
            '-',
            ' ',
        ] + label + seq![':', ' '] + error.message,
{
    reveal_strlit("\n  - ");
    reveal_strlit(": ");
    assert("\n  - "@ =~= seq!['\n', ' ', ' ', '-', ' ']);
    assert(": "@ =~= seq![':', ' ']);
    assert(entries.push((label, error)).drop_last() =~= entries);
    assert(entries.push((label, error)).last() == (label, error));
}

/// Nothing is lost of what made a publisher fail: the causes of its error are the error that
/// was met, and the causes of that one.
pub proof fn law_publishers_tell_what_made_them_fail(
    publisher: String,
    source: ErrorReport,
    mdns: MdnsPublishersError,
    i: int,
)
    ensures
        0 <= i < source@.sources.len() ==> {
            &&& (PublisherError::Publish { publisher, source }).causes()[i + 1]
                == source@.sources[i]
            &&& (PublisherError::MdnsLocalAuthority { source }).causes()[i + 1]
                == source@.sources[i]
            &&& (PublisherError::MdnsEncode { source }).causes()[i + 1] == source@.sources[i]
        },
        (PublisherError::Publish { publisher, source }).causes()[0] == source@.message,
        (PublisherError::MdnsLocalAuthority { source }).causes()[0] == source@.message,
        (PublisherError::MdnsEncode { source }).causes()[0] == source@.message,
        (PublisherError::Mdns { source: mdns }).causes() == seq![mdns.text()],
        PublisherError::MdnsAnonymousEndpoint.causes().len() == 0,
{
}

} // verus!
