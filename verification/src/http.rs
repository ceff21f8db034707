//! Lookup and publication over HTTP.
use vstd::prelude::*;

use crate::foreign::{
    cache_entries, get_cached, keep_fresh, lossy_text, new_cache_map, optional_text, pair_bytes,
    put_cached, url_has_room, url_joined, url_with_pair, utf8_lossy, UrlParts,
};
use crate::h3::cache::{by_family, family_code, remembered, CacheModel, CachedRecord};
use crate::h3::lookup::{
    api_address, api_url, candidates_in, H3LookupError, LookupDecodeError, LookupRecords,
};
use crate::net::{EndpointAddr, Family, Source, SourceModel};
use crate::protocol::certificate::CertificateSequence;
use crate::protocol::packet::{Answer, Endpoint};
use crate::protocol::wire::views;
use crate::publishers::packet::{
    all_records, announcing, endpoint_packet, EncodeEndpointPacketError,
};
use crate::report::ErrorReport;
use crate::resolvers::endpoint_candidates::addresses;
use crate::resolvers::endpoint_group::selected_members;
use crate::resolvers::names::{
    endpoint_lookup_name_and_sequence, lookup_host, number_colon, selects,
};
use crate::text::{join2, trim, trimmed};

verus! {

pub const PUBLISH_API_PATH: &'static str = "/api/v2/publish";

/// How long the endpoints of a name are remembered, in nanoseconds: five minutes.
pub const RECORD_TTL: u128 = 300_000_000_000;

/// How much of the body of a refusal is shown.
pub const STATUS_BODY_LIMIT: usize = 4096;

/// The URL that a packet of a name is published to.
pub fn publish_url(base_url: &str, name: &str) -> (r: Option<String>)
    ensures
        optional_text(r) == api_address(base_url@, PUBLISH_API_PATH@, name@),
{
    api_url(base_url, PUBLISH_API_PATH, name)
}

/// How the resolver of a server is shown.
pub fn resolver_label(url: &UrlParts) -> (r: String)
    requires
        url.host is Some,
    ensures
        r@ == "HTTP DNS Resolver("@ + (url.host->0)@ + ")"@,
{
    let mut out = String::new();
    out.append("HTTP DNS Resolver(");
    match &url.host {
        Some(host) => {
            out.append(host.as_str());
        },
        None => {},
    }
    out.append(")");
    assert(out@ =~= "HTTP DNS Resolver("@ + (url.host->0)@ + ")"@);
    out
}

/// What the endpoints of a server are said to come from: the host of its URL.
pub fn server_source(url: &UrlParts) -> (r: Source)
    ensures
        r@ == (SourceModel::Http {
            server: match url@.host {
                Some(host) => host,
                None => "<unknown server>"@,
            },
        }),
{
    match &url.host {
        Some(host) => Source::Http { server: host.clone() },
        None => Source::Http { server: "<unknown server>".to_owned() },
    }
}

/// The answers of the packet that announces endpoints for a name. `records` are the records
/// of the addresses, where an address can be put into one.
pub fn dns_packet_for_http_publish(name: &str, records: &Vec<Option<Endpoint>>) -> (r: Result<
    Vec<Answer>,
    EncodeEndpointPacketError,
>)
    ensures
        match (r, all_records(records@)) {
            (Ok(answers), Some(all)) => views(answers@) == announcing(name@, all, None),
            (Err(e), None) => e is EncodeEndpoint,
            _ => false,
        },
{
    endpoint_packet(name, records)
}

/// The start of the body of a refusal, as text.
pub open spec fn status_text(body: Seq<u8>) -> Seq<char> {
    trimmed(
        lossy_text(
            if body.len() > STATUS_BODY_LIMIT {
                body.take(STATUS_BODY_LIMIT as int)
            } else {
                body
            },
        ),
    )
}

/// The start of the body of a refusal, as text.
pub fn bounded_status_body(body: &[u8]) -> (r: String)
    ensures
        r@ == status_text(body@),
{
    let shown = if body.len() > STATUS_BODY_LIMIT {
        vstd::slice::slice_subrange(body, 0, STATUS_BODY_LIMIT)
    } else {
        body
    };
    proof {
        if body@.len() > STATUS_BODY_LIMIT {
            assert(shown@ =~= body@.take(STATUS_BODY_LIMIT as int));
        }
    }
    let text = utf8_lossy(shown);
    trim(text.as_str()).to_owned()
}

/// Why a request failed.
#[derive(Debug, PartialEq, Eq)]
pub enum HttpError {
    Reqwest { source: ErrorReport },
    /// The status as it is shown, and the start of the body.
    Status { status: String, message: String },
    NoRecordFound,
    ParseRecords,
    ParseMultiResponse,
}

impl HttpError {
    pub open spec fn text(self) -> Seq<char> {
        match self {
            HttpError::Reqwest { .. } => "http request failed"@,
            HttpError::Status { status, message } => status@ + (if message@.len() == 0 {
                ""@
            } else {
                ": "@ + message@
            }),
            HttpError::NoRecordFound => "no DNS record found"@,
            HttpError::ParseRecords => "failed to parse DNS records from response"@,
            HttpError::ParseMultiResponse => "failed to decode multi-record response"@,
        }
    }

    pub fn message(&self) -> (r: String)
        ensures
            r@ == self.text(),
    {
        match self {
            HttpError::Reqwest { .. } => "http request failed".to_owned(),
            HttpError::Status { status, message } => {
                proof {
                    reveal_strlit("");
                }
                if message.as_str().unicode_len() == 0 {
                    join2(status.as_str(), "")
                } else {
                    let shown = join2(": ", message.as_str());
                    join2(status.as_str(), shown.as_str())
                }
            },
            HttpError::NoRecordFound => "no DNS record found".to_owned(),
            HttpError::ParseRecords => "failed to parse DNS records from response".to_owned(),
            HttpError::ParseMultiResponse => "failed to decode multi-record response".to_owned(),
        }
    }

    /// Why a request failed: `status` is that of the response, as a number and as it is
    /// shown, where there was one.
    pub fn from_response(status: Option<(u16, String)>, source: ErrorReport) -> (r: Self)
        ensures
            match status {
                Some((code, shown)) => if code == 404 {
                    r is NoRecordFound
                } else {
                    r matches HttpError::Status { status, message } && status == shown
                        && message@.len() == 0
                },
                None => r == (HttpError::Reqwest { source }),
            },
    {
        match status {
            Some((code, shown)) => if code == 404 {
                HttpError::NoRecordFound
            } else {
                HttpError::Status { status: shown, message: String::new() }
            },
            None => HttpError::Reqwest { source },
        }
    }
}

/// What the status of a response to a publication says: it was done, or why not.
pub fn publish_outcome(code: u16, shown: &str, body: &[u8]) -> (r: Result<(), HttpError>)
    ensures
        match r {
            Ok(()) => 200 <= code < 300,
            Err(HttpError::Status { status, message }) => !(200 <= code < 300) && status@ == shown@
                && message@ == status_text(body@),
            Err(_) => false,
        },
{
    if 200 <= code && code < 300 {
        Ok(())
    } else {
        Err(HttpError::Status { status: shown.to_owned(), message: bounded_status_body(body) })
    }
}

/// What is remembered of earlier lookups.
pub struct RecordCache {
    records: dashmap::DashMap<(String, u8), CachedRecord>,
}

/// How a lookup starts.
#[derive(Debug, PartialEq, Eq)]
pub enum LookupStart {
    NoRecordFound,
    /// The endpoints are remembered.
    Cached(Vec<EndpointAddr>),
    /// A server is asked.
    Ask { domain: String, sequence: Option<CertificateSequence> },
}

/// What a lookup found in a response, or why it found nothing.
pub open spec fn lookup_outcome(
    domain: Seq<char>,
    sequence: Option<CertificateSequence>,
    response: Seq<u8>,
    packets: Seq<Option<Vec<Answer>>>,
) -> Result<Seq<EndpointAddr>, HttpError> {
    match candidates_in(response, packets, domain) {
        Err(LookupDecodeError::MultiResponse) => Err(HttpError::ParseMultiResponse),
        Err(LookupDecodeError::ParseRecords) => Err(HttpError::ParseRecords),
        Ok(candidates) => {
            let members = selected_members(candidates, sequence);
            if members.len() == 0 {
                Err(HttpError::NoRecordFound)
            } else {
                Ok(addresses(members))
            }
        },
    }
}

impl RecordCache {
    /// What is remembered, by name.
    pub closed spec fn records(self) -> CacheModel {
        by_family(cache_entries(self.records))
    }

    /// Nothing is remembered.
    pub fn new() -> (r: Self)
        ensures
            r.records() == CacheModel::empty(),
    {
        let records = new_cache_map();
        assert(by_family(cache_entries(records)) =~= CacheModel::empty());
        RecordCache { records }
    }

    /// Starts a lookup: a name that is none is not looked up, and endpoints that are
    /// remembered are handed out.
    pub fn start_lookup(&mut self, name: &str, now: u128) -> (r: LookupStart)
        ensures
            lookup_host(name@) is None ==> final(self).records() == old(self).records() && r is
                NoRecordFound,
            lookup_host(name@) is Some ==> {
                let records = remembered(old(self).records(), now);
                &&& final(self).records() == records
                &&& match r {
                    LookupStart::NoRecordFound => false,
                    LookupStart::Cached(addrs) => records.dom().contains((name@, None)) && addrs@
                        == records[(name@, None)].0,
                    LookupStart::Ask { domain, sequence } => !records.dom().contains((name@, None))
                        && lookup_host(name@) == Some(domain@) && (match sequence {
                        Some(sequence) => number_colon(name@) >= 0 && selects(
                            name@.skip(number_colon(name@) + 1),
                            sequence,
                        ),
                        None => number_colon(name@) < 0,
                    }),
                }
            },
    {
        let (domain, sequence) = match endpoint_lookup_name_and_sequence(name) {
            Some(parts) => parts,
            None => return LookupStart::NoRecordFound,
        };
        keep_fresh(&mut self.records, now);
        assert(self.records() =~= remembered(old(self).records(), now));
        let key: (String, u8) = (name.to_owned(), 0u8);
        assert(family_code(None) == 0);
        match get_cached(&self.records, &key) {
            Some(record) => LookupStart::Cached(record.addrs),
            None => LookupStart::Ask { domain: domain.to_owned(), sequence },
        }
    }

    /// Ends a lookup that started at `now`: what was found is remembered.
    pub fn finish_lookup(
        &mut self,
        name: &str,
        domain: &str,
        sequence: Option<CertificateSequence>,
        response: &[u8],
        packets: &Vec<Option<Vec<Answer>>>,
        now: u128,
    ) -> (r: Result<Vec<EndpointAddr>, HttpError>)
        requires
            now + RECORD_TTL <= u128::MAX,
        ensures
            match (r, lookup_outcome(domain@, sequence, response@, packets@)) {
                (Ok(addrs), Ok(found)) => addrs@ == found && final(self).records() == old(self).records().insert((name@, None), (addrs@, (now + RECORD_TTL) as u128)),
                (Err(e), Err(fault)) => e == fault && final(self).records() == old(self).records(),
                _ => false,
            },
    {
        let records = match LookupRecords::decode(domain, sequence, response, packets) {
            Ok(records) => records,
            Err(LookupDecodeError::MultiResponse) => return Err(HttpError::ParseMultiResponse),
            Err(LookupDecodeError::ParseRecords) => return Err(HttpError::ParseRecords),
        };
        if records.endpoints.is_empty() {
            return Err(HttpError::NoRecordFound);
        }
        let addrs = vstd::slice::slice_to_vec(records.endpoints.as_slice());
        put_cached(
            &mut self.records,
            (name.to_owned(), 0u8),
            CachedRecord { addrs, expire: now + RECORD_TTL },
        );
        assert(self.records() =~= old(self).records().insert(
            (name@, None),
            (addrs@, (now + RECORD_TTL) as u128),
        ));
        Ok(records.endpoints)
    }
}

/// A lookup over HTTP finds what a lookup over HTTP/3 finds in the same response.
pub proof fn law_both_lookups_find_the_same(
    domain: Seq<char>,
    sequence: Option<CertificateSequence>,
    response: Seq<u8>,
    packets: Seq<Option<Vec<Answer>>>,
)
    ensures
        match (
            lookup_outcome(domain, sequence, response, packets),
            crate::h3::lookup::lookup_outcome(domain, sequence, response, packets),
        ) {
            (Ok(a), Ok(b)) => a == b,
            (Err(HttpError::NoRecordFound), Err(H3LookupError::NoRecordFound)) => true,
            (Err(HttpError::ParseMultiResponse), Err(H3LookupError::Decode { source })) => source
                is MultiResponse,
            (Err(HttpError::ParseRecords), Err(H3LookupError::Decode { source })) => source is
                ParseRecords,
            _ => false,
        },
{
}

/// Of a body that goes with a status, no more is shown than fits, without the space around it.
pub proof fn law_bodies_of_refusals_are_cut(body: Seq<u8>, rest: Seq<u8>)
    ensures
        body.len() == 4096 ==> status_text(body + rest) == status_text(body),
        body.len() <= 4096 ==> status_text(body) == trimmed(lossy_text(body)),
{
    if body.len() == 4096 {
        assert((body + rest).take(4096) =~= body);
    }
}

/// A refusal is shown by its status and, where there is one, the message behind it.
pub proof fn law_refusals_are_shown_with_their_message(status: String, message: String)
    ensures
        message@.len() == 0 ==> (HttpError::Status { status, message }).text() == status@,
        message@.len() > 0 ==> (HttpError::Status { status, message }).text() == status@ + seq![
            ':',
            ' ',
        ] + message@,
{
    reveal_strlit("");
    reveal_strlit(": ");
    assert(": "@ =~= seq![':', ' ']);
    assert(status@ + ""@ =~= status@);
    assert(status@ + (": "@ + message@) =~= status@ + seq![':', ' '] + message@);
}

/// A publication goes to the API of the server, with the host as a parameter.
pub proof fn law_publications_name_their_host(base_url: Seq<char>, name: Seq<char>)
    ensures
        url_joined(base_url, "/api/v2/publish"@) is None ==> api_address(
            base_url,
            PUBLISH_API_PATH@,
            name,
        ) is None,
        url_joined(base_url, "/api/v2/publish"@) matches Some(url) ==> url_has_room(
            url,
            pair_bytes("host"@, name),
        ) ==> api_address(base_url, PUBLISH_API_PATH@, name) == url_with_pair(
            url,
            "host"@,
            name,
        ),
{
}

/// Addresses are remembered for five minutes.
pub proof fn law_addresses_are_remembered_for_five_minutes(
    records: CacheModel,
    key: (Seq<char>, Option<Family>),
    addrs: Seq<EndpointAddr>,
    now: u128,
    later: u128,
)
    requires
        now + 300_000_000_000 <= u128::MAX,
    ensures
        ({
            let after = records.insert(key, (addrs, (now + RECORD_TTL) as u128));
            &&& remembered(after, later).dom().contains(key) <==> later < now + 300_000_000_000
            &&& later < now + 300_000_000_000 ==> remembered(after, later)[key].0 == addrs
        }),
{
}

} // verus!
