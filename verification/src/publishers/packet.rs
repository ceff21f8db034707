//! The packet that announces endpoints for a name.
use vstd::prelude::*;

use crate::protocol::certificate::{
    is_primary_chain_key, CertificateChainKey,
};
use crate::protocol::packet::{Answer, AnswerModel, Endpoint};
use crate::protocol::wire::views;

verus! {

/// Why a packet cannot be made.
#[derive(Debug, Clone, Copy, PartialEq, Eq, Structural)]
pub enum EncodeEndpointPacketError {
    /// An address cannot be put into a record.
    EncodeEndpoint,
}

impl EncodeEndpointPacketError {
    pub fn message(&self) -> (r: &'static str)
        ensures
            r@ == "failed to encode endpoint address"@,
    {
        "failed to encode endpoint address"
    }
}

/// A record of a certificate chain, or as it is where there is none.
pub open spec fn marked(record: Endpoint, chain_key: Option<CertificateChainKey>) -> Endpoint {
    match chain_key {
        Some(chain_key) => Endpoint {
            main: chain_key.kind is Primary,
            sequence: Some(chain_key.sequence),
            ..record
        },
        None => record,
    }
}

/// A record of a certificate chain, or as it is where there is none.
pub fn mark_endpoint(record: Endpoint, chain_key: Option<&CertificateChainKey>) -> (r: Endpoint)
    ensures
        r == marked(
            record,
            match chain_key {
                Some(key) => Some(*key),
                None => None,
            },
        ),
{
    let mut record = record;
    match chain_key {
        Some(key) => {
            record.main = is_primary_chain_key(key);
            record.sequence = Some(key.sequence);
        },
        None => {},
    }
    record
}

/// The records of some addresses, where each address can be put into one.
pub open spec fn all_records(records: Seq<Option<Endpoint>>) -> Option<Seq<Endpoint>> {
    if forall|i: int| 0 <= i < records.len() ==> (#[trigger] records[i]) is Some {
        Some(records.map_values(|r: Option<Endpoint>| r->0))
    } else {
        None
    }
}

/// The answers that announce some records for a name.
pub open spec fn announcing(
    name: Seq<char>,
    records: Seq<Endpoint>,
    chain_key: Option<CertificateChainKey>,
) -> Seq<AnswerModel> {
    records.map_values(
        |r: Endpoint| AnswerModel { name, endpoint: Some(marked(r, chain_key)) },
    )
}

/// The answers of the packet that announces endpoints for a name, as endpoints of a
/// certificate chain where one is given. `records` are the records of the addresses, where
/// an address can be put into one.
pub fn endpoint_packet_with_chain_key(
    name: &str,
    records: &Vec<Option<Endpoint>>,
    chain_key: Option<&CertificateChainKey>,
) -> (r: Result<Vec<Answer>, EncodeEndpointPacketError>)
    ensures
        match (r, all_records(records@)) {
            (Ok(answers), Some(all)) => views(answers@) == announcing(
                name@,
                all,
                match chain_key {
                    Some(key) => Some(*key),
                    None => None,
                },
            ),
            (Err(e), None) => e is EncodeEndpoint,
            _ => false,
        },
{
    let ghost key = match chain_key {
        Some(key) => Some(*key),
        None => None,
    };
    let mut answers: Vec<Answer> = Vec::new();
    let mut i: usize = 0;
    while i < records.len()
        invariant
            i <= records@.len(),
            key == (match chain_key {
                Some(key) => Some(*key),
                None => None,
            }),
            answers@.len() == i,
            forall|j: int| 0 <= j < i ==> (#[trigger] records@[j]) is Some,
            forall|j: int|
                0 <= j < i ==> (#[trigger] answers@[j])@ == (AnswerModel {
                    name: name@,
                    endpoint: Some(marked(records@[j]->0, key)),
                }),
        decreases records@.len() - i,
    {
        match records[i] {
            Some(record) => {
                answers.push(
                    Answer {
                        name: name.to_owned(),
                        endpoint: Some(mark_endpoint(record, chain_key)),
                    },
                );
            },
            None => {
                assert(records@[i as int] is None);
                return Err(EncodeEndpointPacketError::EncodeEndpoint);
            },
        }
        i = i + 1;
    }
    assert(views(answers@) =~= announcing(name@, all_records(records@)->0, key));
    Ok(answers)
}

/// The answers of the packet that announces endpoints for a name.
pub fn endpoint_packet(name: &str, records: &Vec<Option<Endpoint>>) -> (r: Result<
    Vec<Answer>,
    EncodeEndpointPacketError,
>)
    ensures
        match (r, all_records(records@)) {
            (Ok(answers), Some(all)) => views(answers@) == announcing(name@, all, None),
            (Err(e), None) => e is EncodeEndpoint,
            _ => false,
        },
{
    endpoint_packet_with_chain_key(name, records, None)
}

/// A record that is marked with a certificate chain names it, and is reached where it was
/// reached before. Without a chain it stays as it is.
pub proof fn law_marked_records_name_their_chain(record: Endpoint, key: CertificateChainKey)
    ensures
        marked(record, None) == record,
        marked(record, Some(key)).chain_key() == key,
        marked(record, Some(key)).sequence == Some(key.sequence),
        marked(record, Some(key)).main <==> key.kind is Primary,
        marked(record, Some(key)).address() == record.address(),
        marked(record, Some(key)).signed == record.signed,
        marked(record, Some(key)).load == record.load,
{
}

/// A packet for a name announces every record under the name, in order, and names the chain
/// in each.
pub proof fn law_packets_announce_every_record(
    name: Seq<char>,
    records: Seq<Endpoint>,
    key: CertificateChainKey,
    i: int,
)
    ensures
        announcing(name, records, Some(key)).len() == records.len(),
        announcing(name, records, None).len() == records.len(),
        0 <= i < records.len() ==> {
            let named = announcing(name, records, Some(key))[i];
            let plain = announcing(name, records, None)[i];
            &&& named.name == name
            &&& named.endpoint is Some
            &&& named.endpoint->0.address() == records[i].address()
            &&& named.endpoint->0.chain_key() == key
            &&& plain.name == name
            &&& plain.endpoint == Some(records[i])
        },
{
}

/// Records are all there where none is missing, in order.
pub proof fn law_records_are_all_there_where_none_is_missing(
    records: Seq<Option<Endpoint>>,
    i: int,
)
    ensures
        all_records(records) matches Some(all) ==> {
            &&& all.len() == records.len()
            &&& 0 <= i < records.len() ==> records[i] == Some(all[i])
        },
        0 <= i < records.len() && records[i] is None ==> all_records(records) is None,
        (forall|j: int| 0 <= j < records.len() ==> (#[trigger] records[j]) is Some) ==> all_records(
            records,
        ) is Some,
{
    if all_records(records) is Some && 0 <= i < records.len() {
        assert(records[i] is Some);
    }
}

} // verus!
