//! Lookup over HTTP/3.
use vstd::prelude::*;

use crate::foreign::{
    append_url_pair, join_url, pair_bytes, read_origin, url_has_room, url_joined, url_origin,
    url_parts, url_with_pair, UrlParts,
};
use crate::h3::cache::{
    remembered, CacheModel, LookupCache, NEGATIVE_TTL, POSITIVE_TTL,
};
use crate::net::{EndpointAddr, Family, Source, SourceModel};
use crate::protocol::certificate::{CertificateChainKey, CertificateSequence};
use crate::protocol::packet::{law_addresses_round_trip, Answer, AnswerModel, Endpoint};
use crate::protocol::signature::{verification, SignatureFault, SignatureFieldsModel};
use crate::protocol::wire::{
    be_multi_response, law_response_round_trip, law_what_follows_a_response_is_left,
    lemma_records_read_fit, publisher_chain, read_response, read_u32, record_fits,
    response_encoding, views, ResponseRecord, ResponseRecordModel,
};
use crate::publishers::packet::{announcing, law_marked_records_name_their_chain, marked};
use crate::report::ErrorReport;
use crate::resolvers::endpoint_candidates::{
    addresses, chain_members, grouped, grouped_endpoint_candidates, groups_view, member_addresses,
    EndpointCandidateGroups, TaggedEndpointCandidate,
};
use crate::resolvers::endpoint_group::{
    select_group, selected_members,
};
use crate::resolvers::names::{
    endpoint_lookup_name_and_sequence, lookup_host, number_colon, selects,
};
use crate::text::{contains_char, decimal, decimal_string, join2, text_eq};

verus! {

pub const LOOKUP_API_PATH: &'static str = "/api/v2/lookup";

/// How long one request may take, in seconds.
pub const LOOKUP_REQUEST_TIMEOUT_SECS: u64 = 3;

/// How often a request is tried.
pub const LOOKUP_REQUEST_ATTEMPTS: u64 = 3;

/// A base URL that cannot be used.
#[derive(Debug, Clone, Copy, PartialEq, Eq, Structural)]
pub enum BaseUrlError {
    Invalid,
    MissingHost,
}

/// The URL of a server. It has to name a host.
pub fn server_url(base_url: &str) -> (r: Result<UrlParts, BaseUrlError>)
    ensures
        match (r, url_parts(base_url@)) {
            (Ok(url), Some(parts)) => url@ == parts && parts.host is Some,
            (Err(BaseUrlError::Invalid), None) => true,
            (Err(BaseUrlError::MissingHost), Some(parts)) => parts.host is None,
            _ => false,
        },
{
    match UrlParts::parse(base_url) {
        Some(url) => if url.host.is_some() {
            Ok(url)
        } else {
            Err(BaseUrlError::MissingHost)
        },
        None => Err(BaseUrlError::Invalid),
    }
}

/// What the endpoints of a server are said to come from: the origin of its URL.
pub fn server_source(base_url: &str) -> (r: Result<Source, BaseUrlError>)
    ensures
        match (r, url_parts(base_url@)) {
            (Ok(source), Some(parts)) => {
                &&& parts.host is Some
                &&& url_origin(base_url@) matches Some(origin) && source@ == (SourceModel::H3 {
                    server: origin,
                })
            },
            (Err(BaseUrlError::Invalid), None) => true,
            (Err(BaseUrlError::MissingHost), Some(parts)) => parts.host is None,
            _ => false,
        },
{
    match server_url(base_url) {
        Ok(_) => match read_origin(base_url) {
            Some(server) => Ok(Source::H3 { server }),
            None => Err(BaseUrlError::Invalid),
        },
        Err(e) => Err(e),
    }
}

/// How the resolver of a server is shown.
pub fn resolver_label(url: &UrlParts) -> (r: String)
    ensures
        r@ == "H3 DNS Resolver("@ + url@.text + ")"@,
{
    let mut out = join2("H3 DNS Resolver(", url.text.as_str());
    out.append(")");
    out
}

/// A URL with one more parameter. There is none where it has no room for it.
pub open spec fn extended(url: Option<Seq<char>>, name: Seq<char>, value: Seq<char>) -> Option<
    Seq<char>,
> {
    match url {
        Some(url) => if url_has_room(url, pair_bytes(name, value)) {
            url_with_pair(url, name, value)
        } else {
            None
        },
        None => None,
    }
}

/// The URL of an API under a base URL, with a host as its parameter.
pub open spec fn api_address(base_url: Seq<char>, path: Seq<char>, name: Seq<char>) -> Option<
    Seq<char>,
> {
    extended(url_joined(base_url, path), "host"@, name)
}

/// The URL that asks for a name, and for one of its certificate chains where a sequence
/// is given.
pub open spec fn lookup_address(
    base_url: Seq<char>,
    name: Seq<char>,
    sequence: Option<CertificateSequence>,
) -> Option<Seq<char>> {
    let url = api_address(base_url, LOOKUP_API_PATH@, name);
    match sequence {
        Some(sequence) => extended(url, "sequence"@, decimal(sequence.number() as nat)),
        None => url,
    }
}

/// Whether a text, where it is a URL, has room for a query of so many characters, with
/// `signs` bytes around them.
pub(crate) fn is_roomy(url: &str, characters: u128, signs: u128) -> (r: bool)
    requires
        characters <= 2 * usize::MAX,
        signs <= 3,
    ensures
        r == url_has_room(url@, (12 * characters + signs) as nat),
{
    match UrlParts::parse(url) {
        Some(parts) => {
            let text = parts.text.as_str();
            let size: u128 = text.unicode_len() as u128;
            let whole: u128 = size + 12 * characters + signs;
            whole <= isize::MAX as u128 && if contains_char(text, '#') {
                whole <= u32::MAX as u128
            } else {
                contains_char(text, '?') || size <= u32::MAX as u128
            }
        },
        None => true,
    }
}

/// A URL with one more parameter. There is none where it has no room for it.
fn extend_url(url: &str, name: &str, value: &str) -> (r: Option<String>)
    ensures
        crate::foreign::optional_text(r) == extended(Some(url@), name@, value@),
{
    let characters: u128 = name.unicode_len() as u128 + value.unicode_len() as u128;
    if is_roomy(url, characters, 3) {
        append_url_pair(url, name, value)
    } else {
        None
    }
}

/// The URL of an API under a base URL, with a host as its parameter. There is none where
/// nothing can be below the base URL, or where it has no room for the parameter.
pub fn api_url(base_url: &str, path: &str, name: &str) -> (r: Option<String>)
    ensures
        crate::foreign::optional_text(r) == api_address(base_url@, path@, name@),
{
    match join_url(base_url, path) {
        Some(url) => extend_url(url.as_str(), "host", name),
        None => None,
    }
}

/// The URL that asks for a name, and for one of its certificate chains where a sequence
/// is given.
pub fn lookup_url(base_url: &str, name: &str, sequence: Option<CertificateSequence>) -> (r: Option<
    String,
>)
    ensures
        crate::foreign::optional_text(r) == lookup_address(base_url@, name@, sequence),
{
    let url = match api_url(base_url, LOOKUP_API_PATH, name) {
        Some(url) => url,
        None => return None,
    };
    match sequence {
        Some(sequence) => {
            let digits = decimal_string(sequence.get() as u64);
            extend_url(url.as_str(), "sequence", digits.as_str())
        },
        None => Some(url),
    }
}

/// Why a response cannot be used.
#[derive(Debug, Clone, Copy, PartialEq, Eq, Structural)]
pub enum LookupDecodeError {
    MultiResponse,
    ParseRecords,
}

impl LookupDecodeError {
    pub open spec fn text(self) -> Seq<char> {
        match self {
            LookupDecodeError::MultiResponse => "failed to decode multi-record response"@,
            LookupDecodeError::ParseRecords => "failed to parse DNS records from response"@,
        }
    }

    pub fn message(&self) -> (r: &'static str)
        ensures
            r@ == self.text(),
    {
        match self {
            LookupDecodeError::MultiResponse => "failed to decode multi-record response",
            LookupDecodeError::ParseRecords => "failed to parse DNS records from response",
        }
    }
}

/// The records that a response is made of, where it is made of nothing else.
pub open spec fn whole_response(response: Seq<u8>) -> Option<Seq<ResponseRecordModel>> {
    match read_response(response) {
        Ok((records, rest)) => if rest.len() == 0 {
            Some(records)
        } else {
            None
        },
        Err(_) => None,
    }
}

/// A response with something behind it is refused.
pub proof fn law_response_with_a_tail_is_refused(response: Seq<u8>, tail: Seq<u8>)
    requires
        whole_response(response) is Some,
        tail.len() > 0,
    ensures
        whole_response(response + tail) is None,
{
    law_what_follows_a_response_is_left(response, tail);
}

fn parse_whole(response: &[u8]) -> (r: Option<Vec<ResponseRecord>>)
    ensures
        (match r {
            Some(records) => Some(views(records@)),
            None => None,
        }) == whole_response(response@),
        r matches Some(records) ==> forall|i: int|
            0 <= i < records@.len() ==> crate::protocol::wire::record_fits(
                (#[trigger] records@[i])@,
            ),
{
    match be_multi_response(response) {
        Ok((rest, multi)) => {
            proof {
                if let Ok((count, start)) = read_u32(response@) {
                    lemma_records_read_fit(start, count);
                }
                assert forall|i: int| 0 <= i < multi.records@.len() implies
                    crate::protocol::wire::record_fits((#[trigger] multi.records@[i])@) by {
                    assert(multi@[i] == multi.records@[i]@);
                }
            }
            if rest.len() == 0 {
                Some(multi.records)
            } else {
                None
            }
        },
        Err(_) => None,
    }
}

/// The packets of a response, one for each record.
pub fn response_packets(response: &[u8]) -> (r: Result<Vec<Vec<u8>>, LookupDecodeError>)
    ensures
        match (r, whole_response(response@)) {
            (Ok(packets), Some(records)) => views(packets@) == records.map_values(
                |record: ResponseRecordModel| record.dns,
            ),
            (Err(e), None) => e is MultiResponse,
            _ => false,
        },
{
    let mut records = match parse_whole(response) {
        Some(records) => records,
        None => return Err(LookupDecodeError::MultiResponse),
    };
    let ghost models = views(records@);
    let ghost wanted = models.map_values(|record: ResponseRecordModel| record.dns);
    let mut packets: Vec<Vec<u8>> = Vec::new();
    let mut i: usize = 0;
    while i < records.len()
        invariant
            i <= records@.len(),
            models == views(records@),
            wanted == models.map_values(|record: ResponseRecordModel| record.dns),
            packets@.len() == i,
            forall|j: int| 0 <= j < i ==> (#[trigger] packets@[j])@ == wanted[j],
        decreases records@.len() - i,
    {
        assert(models[i as int] == records@[i as int]@);
        packets.push(vstd::slice::slice_to_vec(records[i].dns.as_slice()));
        i = i + 1;
    }
    assert(views(packets@) =~= wanted);
    Ok(packets)
}

/// Whether a record counts: nobody signed it, or the signature is that of the certificate
/// over the packet.
pub open spec fn record_accepted(record: ResponseRecordModel) -> bool {
    record.signature_fields == SignatureFieldsModel::unsigned() || verification(
        record.signature_fields,
        record.dns,
        record.cert,
    ) == Ok::<bool, SignatureFault>(true)
}

/// The endpoints that some answers announce for a name.
pub open spec fn announced(
    answers: Seq<AnswerModel>,
    domain: Seq<char>,
    fallback: Option<CertificateChainKey>,
) -> Seq<TaggedEndpointCandidate<()>>
    decreases answers.len(),
{
    if answers.len() == 0 {
        Seq::empty()
    } else {
        let front = announced(answers.drop_last(), domain, fallback);
        match answers.last().endpoint {
            Some(record) => if answers.last().name == domain {
                front.push(
                    TaggedEndpointCandidate { tag: (), record, fallback_chain_key: fallback },
                )
            } else {
                front
            },
            None => front,
        }
    }
}

/// The packet of a record as it was decoded, where it could be.
pub open spec fn decoded(packets: Seq<Option<Vec<Answer>>>, i: int) -> Option<Seq<AnswerModel>> {
    if 0 <= i < packets.len() {
        match packets[i] {
            Some(answers) => Some(views(answers@)),
            None => None,
        }
    } else {
        None
    }
}

/// The endpoints that the first `n` records of a response announce for a name. There are
/// none to tell where the packet of a record that counts could not be decoded.
pub open spec fn announced_in(
    records: Seq<ResponseRecordModel>,
    packets: Seq<Option<Vec<Answer>>>,
    domain: Seq<char>,
    n: nat,
) -> Option<Seq<TaggedEndpointCandidate<()>>>
    decreases n,
{
    if n == 0 {
        Some(Seq::empty())
    } else {
        match announced_in(records, packets, domain, (n - 1) as nat) {
            None => None,
            Some(front) => {
                let record = records[n - 1];
                if !record_accepted(record) {
                    Some(front)
                } else {
                    match decoded(packets, n - 1) {
                        None => None,
                        Some(answers) => Some(
                            front + announced(answers, domain, publisher_chain(record.cert)),
                        ),
                    }
                }
            },
        }
    }
}

/// The endpoints that a response announces for a name.
pub open spec fn candidates_in(
    response: Seq<u8>,
    packets: Seq<Option<Vec<Answer>>>,
    domain: Seq<char>,
) -> Result<Seq<TaggedEndpointCandidate<()>>, LookupDecodeError> {
    match whole_response(response) {
        None => Err(LookupDecodeError::MultiResponse),
        Some(records) => match announced_in(records, packets, domain, records.len()) {
            None => Err(LookupDecodeError::ParseRecords),
            Some(candidates) => Ok(candidates),
        },
    }
}

proof fn lemma_announced_in_fails_on(
    records: Seq<ResponseRecordModel>,
    packets: Seq<Option<Vec<Answer>>>,
    domain: Seq<char>,
    i: nat,
    n: nat,
)
    requires
        i <= n,
        announced_in(records, packets, domain, i) is None,
    ensures
        announced_in(records, packets, domain, n) is None,
    decreases n - i,
{
    if i < n {
        lemma_announced_in_fails_on(records, packets, domain, i + 1, n);
    }
}

fn push_announced(
    out: &mut Vec<TaggedEndpointCandidate<()>>,
    answers: &Vec<Answer>,
    domain: &str,
    fallback: Option<CertificateChainKey>,
)
    ensures
        final(out)@ == old(out)@ + announced(views(answers@), domain@, fallback),
{
    let ghost start = out@;
    let ghost all = views(answers@);
    let mut i: usize = 0;
    assert(out@ =~= start + announced(all.take(0), domain@, fallback));
    while i < answers.len()
        invariant
            i <= answers@.len(),
            all == views(answers@),
            out@ == start + announced(all.take(i as int), domain@, fallback),
        decreases answers@.len() - i,
    {
        proof {
            assert(all.take(i + 1).drop_last() =~= all.take(i as int));
            assert(all.take(i + 1).last() == answers@[i as int]@);
        }
        match answers[i].endpoint {
            Some(record) => if text_eq(answers[i].name.as_str(), domain) {
                out.push(
                    TaggedEndpointCandidate { tag: (), record, fallback_chain_key: fallback },
                );
            },
            None => {},
        }
        assert(out@ =~= start + announced(all.take(i + 1), domain@, fallback));
        i = i + 1;
    }
    assert(all.take(i as int) =~= all);
}

/// What a lookup found.
#[derive(Debug, PartialEq, Eq)]
pub struct LookupRecords {
    pub endpoints: Vec<EndpointAddr>,
}

fn decode_candidates(domain: &str, response: &[u8], packets: &Vec<Option<Vec<Answer>>>) -> (r:
    Result<Vec<TaggedEndpointCandidate<()>>, LookupDecodeError>)
    ensures
        (match r {
            Ok(candidates) => Ok(candidates@),
            Err(e) => Err(e),
        }) == candidates_in(response@, packets@, domain@),
{
    let records = match parse_whole(response) {
        Some(records) => records,
        None => return Err(LookupDecodeError::MultiResponse),
    };
    let ghost models = views(records@);
    let mut out: Vec<TaggedEndpointCandidate<()>> = Vec::new();
    let mut i: usize = 0;
    assert(out@ =~= Seq::<TaggedEndpointCandidate<()>>::empty());
    while i < records.len()
        invariant
            i <= records@.len(),
            models == views(records@),
            whole_response(response@) == Some(models),
            forall|j: int|
                0 <= j < records@.len() ==> crate::protocol::wire::record_fits(
                    (#[trigger] records@[j])@,
                ),
            announced_in(models, packets@, domain@, i as nat) == Some(out@),
        decreases records@.len() - i,
    {
        assert(models[i as int] == records@[i as int]@);
        assert(crate::protocol::wire::record_fits(records@[i as int]@));
        let record = &records[i];
        let accepted = if record.signature_fields.is_empty() {
            true
        } else {
            match record.signature_fields.verify(record.dns.as_slice(), record.cert.as_slice()) {
                Ok(valid) => valid,
                Err(_) => false,
            }
        };
        assert(accepted == record_accepted(models[i as int]));
        if accepted {
            let chain = record.publisher_certificate_chain_key();
            let answers = if i < packets.len() {
                match &packets[i] {
                    Some(answers) => answers,
                    None => {
                        proof {
                            lemma_announced_in_fails_on(
                                models,
                                packets@,
                                domain@,
                                (i + 1) as nat,
                                models.len(),
                            );
                        }
                        return Err(LookupDecodeError::ParseRecords);
                    },
                }
            } else {
                proof {
                    lemma_announced_in_fails_on(
                        models,
                        packets@,
                        domain@,
                        (i + 1) as nat,
                        models.len(),
                    );
                }
                return Err(LookupDecodeError::ParseRecords);
            };
            push_announced(&mut out, answers, domain, chain);
        }
        i = i + 1;
    }
    Ok(out)
}

impl LookupRecords {
    /// The endpoints that a response announces for a name, grouped by certificate chain.
    /// `packets` are the packets of its records as they were decoded, where they could be.
    pub fn decode_candidate_groups(
        domain: &str,
        response: &[u8],
        packets: &Vec<Option<Vec<Answer>>>,
    ) -> (r: Result<EndpointCandidateGroups<()>, LookupDecodeError>)
        ensures
            match (r, candidates_in(response@, packets@, domain@)) {
                (Ok(groups), Ok(candidates)) => groups_view(groups@) == grouped(candidates),
                (Err(e), Err(fault)) => e == fault,
                _ => false,
            },
    {
        match decode_candidates(domain, response, packets) {
            Ok(candidates) => Ok(grouped_endpoint_candidates(candidates)),
            Err(e) => Err(e),
        }
    }

    /// The endpoints of the certificate chain that is asked for: the primary one with the
    /// sequence, or, without a sequence, the first of the response.
    pub fn decode(
        domain: &str,
        sequence: Option<CertificateSequence>,
        response: &[u8],
        packets: &Vec<Option<Vec<Answer>>>,
    ) -> (r: Result<LookupRecords, LookupDecodeError>)
        ensures
            match (r, candidates_in(response@, packets@, domain@)) {
                (Ok(records), Ok(candidates)) => records.endpoints@ == addresses(
                    selected_members(candidates, sequence),
                ),
                (Err(e), Err(fault)) => e == fault,
                _ => false,
            },
    {
        let groups = match Self::decode_candidate_groups(domain, response, packets) {
            Ok(groups) => groups,
            Err(e) => return Err(e),
        };
        let ghost candidates = candidates_in(response@, packets@, domain@)->Ok_0;
        assert(groups_view(groups@) == grouped(candidates));
        let selected = select_group(groups, sequence);
        Ok(LookupRecords { endpoints: member_addresses(&selected) })
    }
}

/// Why a lookup failed.
#[allow(inconsistent_fields)]
#[derive(Debug, PartialEq, Eq)]
pub enum H3LookupError {
    Request { source: ErrorReport },
    H3Stream { source: ErrorReport },
    RequestTimeout,
    /// The server answered with a status that it has no record for.
    Status { status: String },
    NoRecordFound,
    Decode { source: LookupDecodeError },
}

impl H3LookupError {
    pub open spec fn text(self) -> Seq<char> {
        match self {
            H3LookupError::Request { .. } => "h3 request error"@,
            H3LookupError::H3Stream { .. } => "h3 stream error"@,
            H3LookupError::RequestTimeout => "h3 request timed out after 3s"@,
            H3LookupError::Status { status } => status@,
            H3LookupError::NoRecordFound => "no DNS record found"@,
            H3LookupError::Decode { source } => source.text(),
        }
    }

    pub fn message(&self) -> (r: String)
        ensures
            r@ == self.text(),
    {
        match self {
            H3LookupError::Request { .. } => "h3 request error".to_owned(),
            H3LookupError::H3Stream { .. } => "h3 stream error".to_owned(),
            H3LookupError::RequestTimeout => "h3 request timed out after 3s".to_owned(),
            H3LookupError::Status { status } => status.clone(),
            H3LookupError::NoRecordFound => "no DNS record found".to_owned(),
            H3LookupError::Decode { source } => source.message().to_owned(),
        }
    }

    /// Whether another attempt may succeed.
    pub fn retryable_lookup_error(&self) -> (r: bool)
        ensures
            r == (self is Request || self is H3Stream),
    {
        match self {
            H3LookupError::Request { .. } => true,
            H3LookupError::H3Stream { .. } => true,
            _ => false,
        }
    }
}

/// What the status of a response says: the body is the answer, or why there is none.
pub fn check_status(status: u16, shown: &str) -> (r: Result<(), H3LookupError>)
    ensures
        match r {
            Ok(()) => status == 200,
            Err(H3LookupError::NoRecordFound) => status == 404,
            Err(H3LookupError::Status { status: text }) => status != 200 && status != 404
                && text@ == shown@,
            Err(_) => false,
        },
{
    if status == 200 {
        Ok(())
    } else if status == 404 {
        Err(H3LookupError::NoRecordFound)
    } else {
        Err(H3LookupError::Status { status: shown.to_owned() })
    }
}

/// What became of one attempt.
#[derive(Debug, PartialEq, Eq)]
pub enum AttemptOutcome {
    Response(Vec<u8>),
    Failed(H3LookupError),
    TimedOut,
}

/// What follows from an attempt.
#[derive(Debug, PartialEq, Eq)]
pub enum NextStep {
    Done(Result<Vec<u8>, H3LookupError>),
    /// Another attempt is made. Connections are dropped first where the attempt failed;
    /// after a timeout others may still be waiting on them.
    Retry { clear_pool: bool },
}

/// The attempts of one request.
#[derive(Debug, PartialEq, Eq)]
pub struct LookupAttempts {
    attempt: u64,
}

impl LookupAttempts {
    /// The number of the attempt that is made, from one.
    pub closed spec fn attempt(self) -> u64 {
        self.attempt
    }

    pub open spec fn wf(self) -> bool {
        1 <= self.attempt() <= LOOKUP_REQUEST_ATTEMPTS
    }

    /// The first attempt is made.
    pub fn new() -> (r: Self)
        ensures
            r.wf(),
            r.attempt() == 1,
    {
        LookupAttempts { attempt: 1 }
    }

    /// Decides what follows from an attempt: an answer ends the request, and so does a
    /// failure that another attempt cannot mend. The last attempt ends it in any case.
    pub fn on_outcome(&mut self, outcome: AttemptOutcome) -> (r: NextStep)
        requires
            old(self).wf(),
        ensures
            final(self).wf(),
            match r {
                NextStep::Done(result) => final(self).attempt() == old(self).attempt() && (
                match outcome {
                    AttemptOutcome::Response(body) => result == Ok::<Vec<u8>, H3LookupError>(
                        body,
                    ),
                    AttemptOutcome::Failed(error) => result == Err::<Vec<u8>, H3LookupError>(
                        error,
                    ) && (!(error is Request || error is H3Stream) || old(self).attempt()
                        == LOOKUP_REQUEST_ATTEMPTS),
                    AttemptOutcome::TimedOut => result == Err::<Vec<u8>, H3LookupError>(
                        H3LookupError::RequestTimeout,
                    ) && old(self).attempt() == LOOKUP_REQUEST_ATTEMPTS,
                }),
                NextStep::Retry { clear_pool } => final(self).attempt() == old(self).attempt() + 1
                    && (match outcome {
                    AttemptOutcome::Response(_) => false,
                    AttemptOutcome::Failed(error) => clear_pool && (error is Request || error is
                        H3Stream),
                    AttemptOutcome::TimedOut => !clear_pool,
                }),
            },
    {
        let last = self.attempt >= LOOKUP_REQUEST_ATTEMPTS;
        match outcome {
            AttemptOutcome::Response(body) => NextStep::Done(Ok(body)),
            AttemptOutcome::Failed(error) => if error.retryable_lookup_error() && !last {
                self.attempt = self.attempt + 1;
                NextStep::Retry { clear_pool: true }
            } else {
                NextStep::Done(Err(error))
            },
            AttemptOutcome::TimedOut => if !last {
                self.attempt = self.attempt + 1;
                NextStep::Retry { clear_pool: false }
            } else {
                NextStep::Done(Err(H3LookupError::RequestTimeout))
            },
        }
    }
}

/// All attempts of a request together take at most ten seconds.
pub proof fn law_attempts_fit_in_the_budget(attempts: LookupAttempts)
    requires
        attempts.wf(),
    ensures
        attempts.attempt() * LOOKUP_REQUEST_TIMEOUT_SECS <= 10,
{
    assert(attempts.attempt() * LOOKUP_REQUEST_TIMEOUT_SECS <= 3 * 3) by (nonlinear_arith)
        requires
            attempts.attempt() <= 3,
            LOOKUP_REQUEST_TIMEOUT_SECS == 3,
    ;
}

/// How a lookup starts.
#[derive(Debug, PartialEq, Eq)]
pub enum LookupStart {
    NoRecordFound,
    /// The endpoints are remembered.
    Cached(Vec<EndpointAddr>),
    /// A server is asked.
    Ask { domain: String, sequence: Option<CertificateSequence> },
}

/// Starts a lookup: a name that is none, or that is remembered to have no endpoints, is
/// not looked up, and endpoints that are remembered are handed out.
pub fn start_lookup(
    cache: &mut LookupCache,
    name: &str,
    family: Option<Family>,
    now: u128,
) -> (r: LookupStart)
    ensures
        lookup_host(name@) is None ==> {
            &&& final(cache).positive() == old(cache).positive()
            &&& final(cache).negative() == old(cache).negative()
            &&& r is NoRecordFound
        },
        lookup_host(name@) is Some ==> {
            let positive = remembered(old(cache).positive(), now);
            let negative = remembered(old(cache).negative(), now);
            let key = (name@, family);
            &&& final(cache).positive() == positive
            &&& final(cache).negative() == negative
            &&& match r {
                LookupStart::NoRecordFound => negative.dom().contains(key),
                LookupStart::Cached(addrs) => !negative.dom().contains(key)
                    && positive.dom().contains(key) && addrs@ == positive[key].0,
                LookupStart::Ask { domain, sequence } => !negative.dom().contains(key)
                    && !positive.dom().contains(key) && lookup_host(name@) == Some(domain@) && (
                match sequence {
                    Some(sequence) => number_colon(name@) >= 0 && selects(
                        name@.skip(number_colon(name@) + 1),
                        sequence,
                    ),
                    None => number_colon(name@) < 0,
                }),
            }
        },
{
    let (domain, sequence) = match endpoint_lookup_name_and_sequence(name) {
        Some(parts) => parts,
        None => return LookupStart::NoRecordFound,
    };
    cache.prune_expired(now);
    if cache.negative_hit(name, family) {
        return LookupStart::NoRecordFound;
    }
    match cache.positive_hit(name, family) {
        Some(addrs) => LookupStart::Cached(addrs),
        None => LookupStart::Ask { domain: domain.to_owned(), sequence },
    }
}

/// What a lookup found in a response, or why it found nothing.
pub open spec fn lookup_outcome(
    domain: Seq<char>,
    sequence: Option<CertificateSequence>,
    response: Seq<u8>,
    packets: Seq<Option<Vec<Answer>>>,
) -> Result<Seq<EndpointAddr>, H3LookupError> {
    match candidates_in(response, packets, domain) {
        Err(source) => Err(H3LookupError::Decode { source }),
        Ok(candidates) => {
            let members = selected_members(candidates, sequence);
            if members.len() == 0 {
                Err(H3LookupError::NoRecordFound)
            } else {
                Ok(addresses(members))
            }
        },
    }
}

/// Ends a lookup: what was found is remembered, and so is that nothing was.
pub fn finish_lookup(
    cache: &mut LookupCache,
    name: &str,
    family: Option<Family>,
    domain: &str,
    sequence: Option<CertificateSequence>,
    response: Result<Vec<u8>, H3LookupError>,
    packets: &Vec<Option<Vec<Answer>>>,
    now: u128,
) -> (r: Result<Vec<EndpointAddr>, H3LookupError>)
    requires
        now + POSITIVE_TTL <= u128::MAX,
    ensures
        match response {
            Err(error) => r == Err::<Vec<EndpointAddr>, H3LookupError>(error),
            Ok(body) => match (r, lookup_outcome(domain@, sequence, body@, packets@)) {
                (Ok(addrs), Ok(found)) => addrs@ == found,
                (Err(e), Err(fault)) => e == fault,
                _ => false,
            },
        },
        match r {
            Ok(addrs) => final(cache).positive() == old(cache).positive().insert(
                (name@, family),
                (addrs@, (now + POSITIVE_TTL) as u128),
            ) && final(cache).negative() == old(cache).negative().remove((name@, family)),
            Err(H3LookupError::NoRecordFound) => final(cache).positive() == old(cache).positive()
                && final(cache).negative() == old(cache).negative().insert(
                (name@, family),
                (Seq::empty(), (now + NEGATIVE_TTL) as u128),
            ),
            Err(_) => final(cache).positive() == old(cache).positive() && final(cache).negative()
                == old(cache).negative(),
        },
{
    let body = match response {
        Ok(body) => body,
        Err(error) => {
            if let H3LookupError::NoRecordFound = error {
                cache.insert_negative(name, family, now);
            }
            return Err(error);
        },
    };
    let records = match LookupRecords::decode(domain, sequence, body.as_slice(), packets) {
        Ok(records) => records,
        Err(source) => return Err(H3LookupError::Decode { source }),
    };
    if records.endpoints.is_empty() {
        cache.insert_negative(name, family, now);
        return Err(H3LookupError::NoRecordFound);
    }
    let addrs = vstd::slice::slice_to_vec(records.endpoints.as_slice());
    cache.insert_positive(name, family, addrs, now);
    Ok(records.endpoints)
}

/// Endpoints that a lookup found are handed out again without asking, until their time is
/// over. Then the name is asked for again.
pub proof fn law_found_endpoints_are_served_again(
    positive: CacheModel,
    negative: CacheModel,
    key: (Seq<char>, Option<Family>),
    addrs: Seq<EndpointAddr>,
    now: u128,
    later: u128,
)
    requires
        now + POSITIVE_TTL <= u128::MAX,
    ensures
        ({
            let found = positive.insert(key, (addrs, (now + POSITIVE_TTL) as u128));
            let missing = negative.remove(key);
            &&& !remembered(missing, later).dom().contains(key)
            &&& remembered(found, later).dom().contains(key) <==> later < now + POSITIVE_TTL
            &&& later < now + POSITIVE_TTL ==> remembered(found, later)[key].0 == addrs
        }),
{
}

/// A name for which a lookup found nothing is not asked for again until the time for that
/// is over.
pub proof fn law_missing_name_is_not_asked_for_again(
    negative: CacheModel,
    key: (Seq<char>, Option<Family>),
    now: u128,
    later: u128,
)
    requires
        now + NEGATIVE_TTL <= u128::MAX,
    ensures
        ({
            let missing = negative.insert(key, (Seq::empty(), (now + NEGATIVE_TTL) as u128));
            remembered(missing, later).dom().contains(key) <==> later < now + NEGATIVE_TTL
        }),
{
}

/// The endpoints that are announced for a domain are those of the answers with its name, in
/// their order.
pub proof fn law_announced_endpoints_are_those_of_the_domain(
    answers: Seq<AnswerModel>,
    more: Seq<AnswerModel>,
    answer: AnswerModel,
    domain: Seq<char>,
    fallback: Option<CertificateChainKey>,
)
    ensures
        announced(answers + more, domain, fallback) == announced(answers, domain, fallback)
            + announced(more, domain, fallback),
        answer.name == domain && answer.endpoint is Some ==> {
            let found = announced(seq![answer], domain, fallback);
            &&& found.len() == 1
            &&& found[0].record == answer.endpoint->0
            &&& found[0].fallback_chain_key == fallback
        },
        answer.name != domain || answer.endpoint is None ==> announced(
            seq![answer],
            domain,
            fallback,
        ).len() == 0,
    decreases more.len(),
{
    if more.len() > 0 {
        law_announced_endpoints_are_those_of_the_domain(
            answers,
            more.drop_last(),
            answer,
            domain,
            fallback,
        );
        assert((answers + more).drop_last() =~= answers + more.drop_last());
        assert((answers + more).last() == more.last());
    } else {
        assert(answers + more =~= answers);
    }
    assert(announced(answers + more, domain, fallback) =~= announced(answers, domain, fallback)
        + announced(more, domain, fallback));
    reveal_with_fuel(announced, 2);
    assert(seq![answer].drop_last() =~= Seq::<AnswerModel>::empty());
    assert(seq![answer].last() == answer);
}

/// Whether a record may be used: it has no signature, or its certificate signed its packet.
pub open spec fn trustworthy(record: ResponseRecordModel) -> bool {
    ||| record.signature_fields.content_digest.len() == 0
        && record.signature_fields.signature_input.len() == 0
        && record.signature_fields.signature.len() == 0
    ||| verification(record.signature_fields, record.dns, record.cert) == Ok::<
        bool,
        SignatureFault,
    >(true)
}

/// Whether an endpoint comes from an answer for the domain in the packet of a trustworthy
/// record.
pub open spec fn comes_from(
    candidate: TaggedEndpointCandidate<()>,
    record: ResponseRecordModel,
    answer: AnswerModel,
    domain: Seq<char>,
) -> bool {
    &&& trustworthy(record)
    &&& answer.name == domain
    &&& answer.endpoint == Some(candidate.record)
    &&& candidate.fallback_chain_key == publisher_chain(record.cert)
}

proof fn lemma_trustworthy(record: ResponseRecordModel)
    ensures
        record_accepted(record) <==> trustworthy(record),
{
    let fields = record.signature_fields;
    if fields.content_digest.len() == 0 && fields.signature_input.len() == 0
        && fields.signature.len() == 0 {
        assert(fields.content_digest =~= Seq::<u8>::empty());
        assert(fields.signature_input =~= Seq::<u8>::empty());
        assert(fields.signature =~= Seq::<u8>::empty());
    }
}

proof fn lemma_announced_contains(
    answers: Seq<AnswerModel>,
    domain: Seq<char>,
    fallback: Option<CertificateChainKey>,
    candidate: TaggedEndpointCandidate<()>,
)
    ensures
        announced(answers, domain, fallback).contains(candidate) <==> candidate.fallback_chain_key
            == fallback && exists|k: int|
            0 <= k < answers.len() && (#[trigger] answers[k]).name == domain && answers[k].endpoint
                == Some(candidate.record),
    decreases answers.len(),
{
    if answers.len() > 0 {
        let front = answers.drop_last();
        let known = announced(front, domain, fallback);
        let all = announced(answers, domain, fallback);
        lemma_announced_contains(front, domain, fallback, candidate);
        if known.contains(candidate) {
            let k = choose|k: int|
                0 <= k < front.len() && (#[trigger] front[k]).name == domain && front[k].endpoint
                    == Some(candidate.record);
            assert(answers[k] == front[k]);
            let at = known.index_of(candidate);
            assert(all[at] == candidate);
        }
        if all.contains(candidate) && !known.contains(candidate) {
            let at = all.index_of(candidate);
            if at < known.len() {
                assert(known[at] == candidate);
            }
            assert(answers[answers.len() - 1].name == domain);
        }
        if candidate.fallback_chain_key == fallback && exists|k: int|
            0 <= k < answers.len() && (#[trigger] answers[k]).name == domain && answers[k].endpoint
                == Some(candidate.record) {
            let k = choose|k: int|
                0 <= k < answers.len() && (#[trigger] answers[k]).name == domain
                    && answers[k].endpoint == Some(candidate.record);
            if k < front.len() {
                assert(front[k] == answers[k]);
            } else {
                assert(candidate.tag == ());
                assert(all.last() == candidate);
                assert(all[all.len() - 1] == candidate);
            }
        }
    }
}

proof fn lemma_announced_in_contains(
    records: Seq<ResponseRecordModel>,
    packets: Seq<Option<Vec<Answer>>>,
    domain: Seq<char>,
    n: nat,
    candidate: TaggedEndpointCandidate<()>,
)
    requires
        n <= records.len(),
        announced_in(records, packets, domain, n) is Some,
    ensures
        announced_in(records, packets, domain, n)->0.contains(candidate) <==> exists|
            i: int,
            k: int,
        |
            0 <= i < n && i < packets.len() && packets[i] is Some && 0 <= k
                < packets[i]->0@.len() && #[trigger] comes_from(
                candidate,
                records[i],
                packets[i]->0@[k]@,
                domain,
            ),
    decreases n,
{
    if n > 0 {
        let m = (n - 1) as nat;
        let record = records[n - 1];
        lemma_trustworthy(record);
        lemma_announced_in_contains(records, packets, domain, m, candidate);
        let known = announced_in(records, packets, domain, m)->0;
        let all = announced_in(records, packets, domain, n)->0;
        if record_accepted(record) {
            let list = packets[n - 1]->0@;
            let answers = views(list);
            let own = announced(answers, domain, publisher_chain(record.cert));
            lemma_announced_contains(answers, domain, publisher_chain(record.cert), candidate);
            assert(all == known + own);
            if known.contains(candidate) {
                assert(all[known.index_of(candidate)] == candidate);
            }
            if own.contains(candidate) {
                assert(all[known.len() + own.index_of(candidate)] == candidate);
                let k = choose|k: int|
                    0 <= k < answers.len() && (#[trigger] answers[k]).name == domain
                        && answers[k].endpoint == Some(candidate.record);
                assert(answers[k] == list[k]@);
                assert(comes_from(candidate, records[n - 1], packets[n - 1]->0@[k]@, domain));
            }
            if all.contains(candidate) {
                let at = all.index_of(candidate);
                if at < known.len() {
                    assert(known[at] == candidate);
                } else {
                    assert(own[at - known.len()] == candidate);
                }
            }
            if exists|i: int, k: int|
                0 <= i < n && i < packets.len() && packets[i] is Some && 0 <= k
                    < packets[i]->0@.len() && #[trigger] comes_from(
                    candidate,
                    records[i],
                    packets[i]->0@[k]@,
                    domain,
                ) {
                let (i, k) = choose|i: int, k: int|
                    0 <= i < n && i < packets.len() && packets[i] is Some && 0 <= k
                        < packets[i]->0@.len() && #[trigger] comes_from(
                        candidate,
                        records[i],
                        packets[i]->0@[k]@,
                        domain,
                    );
                if i == n - 1 {
                    assert(answers[k] == list[k]@);
                    assert(own.contains(candidate));
                } else {
                    assert(known.contains(candidate));
                }
            }
        } else {
            assert(all == known);
        }
    }
}

proof fn lemma_announced_in_succeeds(
    records: Seq<ResponseRecordModel>,
    packets: Seq<Option<Vec<Answer>>>,
    domain: Seq<char>,
    n: nat,
)
    requires
        n <= records.len(),
    ensures
        announced_in(records, packets, domain, n) is Some <==> (forall|i: int|
            0 <= i < n && trustworthy(#[trigger] records[i]) ==> i < packets.len() && packets[i] is
                Some),
    decreases n,
{
    if n > 0 {
        lemma_announced_in_succeeds(records, packets, domain, (n - 1) as nat);
        lemma_trustworthy(records[n - 1]);
        if announced_in(records, packets, domain, (n - 1) as nat) is Some {
            assert(trustworthy(records[n - 1]) ==> record_accepted(records[n - 1]));
        }
    }
}

/// A response gives the endpoints that are announced for the domain in the packets of its
/// trustworthy records, and no others. It is refused exactly where such a packet cannot be
/// decoded; the packets of other records do not matter.
pub proof fn law_endpoints_of_trustworthy_records_are_candidates(
    records: Seq<ResponseRecordModel>,
    packets: Seq<Option<Vec<Answer>>>,
    domain: Seq<char>,
    candidate: TaggedEndpointCandidate<()>,
)
    requires
        records.len() < 0x1_0000_0000,
        forall|i: int| 0 <= i < records.len() ==> record_fits(#[trigger] records[i]),
    ensures
        ({
            let r = candidates_in(response_encoding(records), packets, domain);
            &&& r is Ok <==> (forall|i: int|
                0 <= i < records.len() && trustworthy(#[trigger] records[i]) ==> i < packets.len()
                    && packets[i] is Some)
            &&& r is Err ==> r == Err::<Seq<TaggedEndpointCandidate<()>>, _>(
                LookupDecodeError::ParseRecords,
            )
            &&& r matches Ok(found) ==> (found.contains(candidate) <==> exists|i: int, k: int|
                0 <= i < records.len() && i < packets.len() && packets[i] is Some && 0 <= k
                    < packets[i]->0@.len() && #[trigger] comes_from(
                    candidate,
                    records[i],
                    packets[i]->0@[k]@,
                    domain,
                ))
        }),
{
    law_response_round_trip(records, Seq::empty());
    assert(response_encoding(records) + Seq::<u8>::empty() =~= response_encoding(records));
    lemma_announced_in_succeeds(records, packets, domain, records.len());
    if announced_in(records, packets, domain, records.len()) is Some {
        lemma_announced_in_contains(records, packets, domain, records.len(), candidate);
    }
}

/// A record that carries a signature gives its endpoints where its certificate signed its
/// packet, and none where it did not.
pub proof fn law_signed_records_are_used_where_the_signature_is_good(
    record: ResponseRecordModel,
    answers: Vec<Answer>,
    domain: Seq<char>,
    k: int,
)
    requires
        record_fits(record),
        record.signature_fields.signature.len() > 0,
        0 <= k < answers@.len(),
        answers@[k]@.name == domain,
        answers@[k]@.endpoint is Some,
    ensures
        ({
            let r = candidates_in(response_encoding(seq![record]), seq![Some(answers)], domain);
            let signed = verification(record.signature_fields, record.dns, record.cert) == Ok::<
                bool,
                SignatureFault,
            >(true);
            &&& r is Ok
            &&& signed ==> exists|n: int|
                0 <= n < (r->Ok_0).len() && (#[trigger] (r->Ok_0)[n]).record
                    == answers@[k]@.endpoint->0
            &&& !signed ==> (r->Ok_0).len() == 0
        }),
{
    let records = seq![record];
    let packets = seq![Some(answers)];
    let candidate = TaggedEndpointCandidate {
        tag: (),
        record: answers@[k]@.endpoint->0,
        fallback_chain_key: publisher_chain(record.cert),
    };
    law_endpoints_of_trustworthy_records_are_candidates(records, packets, domain, candidate);
    let r = candidates_in(response_encoding(records), packets, domain);
    assert(packets[0] == Some(answers));
    if trustworthy(record) {
        assert(comes_from(candidate, records[0], packets[0]->0@[k]@, domain));
        let n = (r->Ok_0).index_of(candidate);
        assert((r->Ok_0)[n].record == candidate.record);
    } else if (r->Ok_0).len() > 0 {
        let other = (r->Ok_0)[0];
        law_endpoints_of_trustworthy_records_are_candidates(records, packets, domain, other);
        assert((r->Ok_0).contains(other));
    }
}

proof fn lemma_announced_in_prefix(
    records: Seq<ResponseRecordModel>,
    packets: Seq<Option<Vec<Answer>>>,
    record: ResponseRecordModel,
    packet: Option<Vec<Answer>>,
    domain: Seq<char>,
    n: nat,
)
    requires
        n <= records.len(),
        records.len() == packets.len(),
    ensures
        announced_in(records.push(record), packets.push(packet), domain, n) == announced_in(
            records,
            packets,
            domain,
            n,
        ),
    decreases n,
{
    if n > 0 {
        lemma_announced_in_prefix(records, packets, record, packet, domain, (n - 1) as nat);
        assert(records.push(record)[n - 1] == records[n - 1]);
        assert(packets.push(packet)[n - 1] == packets[n - 1]);
    }
}

/// The endpoints of a further record follow those of the records before it.
pub proof fn law_candidates_follow_the_order_of_the_records(
    records: Seq<ResponseRecordModel>,
    packets: Seq<Option<Vec<Answer>>>,
    record: ResponseRecordModel,
    answers: Vec<Answer>,
    domain: Seq<char>,
)
    requires
        records.len() == packets.len(),
        records.len() + 1 < 0x1_0000_0000,
        record_fits(record),
        forall|i: int| 0 <= i < records.len() ==> record_fits(#[trigger] records[i]),
        candidates_in(response_encoding(records), packets, domain) is Ok,
    ensures
        ({
            let before = candidates_in(response_encoding(records), packets, domain)->Ok_0;
            let after = candidates_in(
                response_encoding(records.push(record)),
                packets.push(Some(answers)),
                domain,
            );
            &&& trustworthy(record) ==> after == Ok::<_, LookupDecodeError>(
                before + announced(views(answers@), domain, publisher_chain(record.cert)),
            )
            &&& !trustworthy(record) ==> after == Ok::<_, LookupDecodeError>(before)
        }),
{
    let all = records.push(record);
    law_response_round_trip(records, Seq::empty());
    assert(response_encoding(records) + Seq::<u8>::empty() =~= response_encoding(records));
    law_response_round_trip(all, Seq::empty());
    assert(response_encoding(all) + Seq::<u8>::empty() =~= response_encoding(all));
    lemma_announced_in_prefix(records, packets, record, Some(answers), domain, records.len());
    lemma_trustworthy(record);
    assert(all[records.len() as int] == record);
    assert(packets.push(Some(answers))[records.len() as int] == Some(answers));
}

/// A lookup hands out the addresses of the endpoints that one trustworthy record announces for
/// the domain, where they are all of one chain: one for each, in their order.
pub proof fn law_announced_addresses_are_handed_out(
    record: ResponseRecordModel,
    answers: Vec<Answer>,
    domain: Seq<char>,
)
    requires
        record_fits(record),
        trustworthy(record),
        answers@.len() > 0,
        forall|i: int|
            0 <= i < answers@.len() ==> (#[trigger] answers@[i])@.name == domain
                && answers@[i]@.endpoint is Some,
        forall|i: int, j: int|
            0 <= i < answers@.len() && 0 <= j < answers@.len() ==> (
            #[trigger] answers@[i])@.endpoint->0.main == (#[trigger] answers@[j])@.endpoint->0.main
                && answers@[i]@.endpoint->0.sequence == answers@[j]@.endpoint->0.sequence,
    ensures
        ({
            let r = lookup_outcome(
                domain,
                None,
                response_encoding(seq![record]),
                seq![Some(answers)],
            );
            &&& r is Ok
            &&& (r->Ok_0).len() == answers@.len()
            &&& forall|i: int|
                0 <= i < answers@.len() ==> #[trigger] (r->Ok_0)[i]
                    == answers@[i]@.endpoint->0.address()
        }),
{
    let none = Seq::<ResponseRecordModel>::empty();
    let nothing = Seq::<Option<Vec<Answer>>>::empty();
    law_response_round_trip(none, Seq::empty());
    assert(response_encoding(none) + Seq::<u8>::empty() =~= response_encoding(none));
    law_candidates_follow_the_order_of_the_records(none, nothing, record, answers, domain);
    assert(none.push(record) =~= seq![record]);
    assert(nothing.push(Some(answers)) =~= seq![Some(answers)]);
    let fallback = publisher_chain(record.cert);
    let list = views(answers@);
    let found = announced(list, domain, fallback);
    assert forall|i: int| 0 <= i < list.len() implies (#[trigger] list[i]).name == domain
        && list[i].endpoint is Some by {
        assert(list[i] == answers@[i]@);
    }
    lemma_all_announced(list, domain, fallback);
    assert(candidates_in(response_encoding(none), nothing, domain)->Ok_0 =~= Seq::<
        TaggedEndpointCandidate<()>,
    >::empty());
    assert(Seq::<TaggedEndpointCandidate<()>>::empty() + found =~= found);
    let key = found[0].key();
    assert forall|i: int| 0 <= i < found.len() implies (#[trigger] found[i]).key() == key by {
        assert(list[i] == answers@[i]@);
        assert(list[0] == answers@[0]@);
        assert(answers@[i]@.endpoint->0.main == answers@[0]@.endpoint->0.main);
    }
    lemma_members_of_one_chain(found, key);
    let r = lookup_outcome(domain, None, response_encoding(seq![record]), seq![Some(answers)]);
    assert(r is Ok);
    assert forall|i: int| 0 <= i < answers@.len() implies #[trigger] (r->Ok_0)[i]
        == answers@[i]@.endpoint->0.address() by {
        assert(list[i] == answers@[i]@);
        assert(chain_members(found, key)[i] == found[i].member());
    }
}

proof fn lemma_all_announced(
    answers: Seq<AnswerModel>,
    domain: Seq<char>,
    fallback: Option<CertificateChainKey>,
)
    requires
        forall|i: int|
            0 <= i < answers.len() ==> (#[trigger] answers[i]).name == domain && answers[i].endpoint
                is Some,
    ensures
        announced(answers, domain, fallback).len() == answers.len(),
        forall|i: int|
            0 <= i < answers.len() ==> {
                let candidate = #[trigger] announced(answers, domain, fallback)[i];
                candidate.record == answers[i].endpoint->0 && candidate.fallback_chain_key
                    == fallback
            },
    decreases answers.len(),
{
    if answers.len() > 0 {
        let front = answers.drop_last();
        assert forall|i: int| 0 <= i < front.len() implies (#[trigger] front[i]).name == domain
            && front[i].endpoint is Some by {
            assert(front[i] == answers[i]);
        }
        lemma_all_announced(front, domain, fallback);
        assert(answers[answers.len() - 1].endpoint is Some);
        let known = announced(front, domain, fallback);
        assert forall|i: int| 0 <= i < answers.len() implies ({
            let candidate = #[trigger] announced(answers, domain, fallback)[i];
            candidate.record == answers[i].endpoint->0 && candidate.fallback_chain_key == fallback
        }) by {
            if i < front.len() {
                assert(announced(answers, domain, fallback)[i] == known[i]);
                assert(front[i] == answers[i]);
            }
        }
    }
}

proof fn lemma_members_of_one_chain(
    records: Seq<TaggedEndpointCandidate<()>>,
    key: CertificateChainKey,
)
    requires
        forall|i: int| 0 <= i < records.len() ==> (#[trigger] records[i]).key() == key,
    ensures
        chain_members(records, key).len() == records.len(),
        forall|i: int|
            0 <= i < records.len() ==> #[trigger] chain_members(records, key)[i]
                == records[i].member(),
    decreases records.len(),
{
    if records.len() > 0 {
        let front = records.drop_last();
        assert forall|i: int| 0 <= i < front.len() implies (#[trigger] front[i]).key() == key by {
            assert(front[i] == records[i]);
        }
        lemma_members_of_one_chain(front, key);
        assert(records[records.len() - 1].key() == key);
        assert forall|i: int| 0 <= i < records.len() implies #[trigger] chain_members(
            records,
            key,
        )[i] == records[i].member() by {
            if i < front.len() {
                assert(chain_members(records, key)[i] == chain_members(front, key)[i]);
            }
        }
    }
}

/// A response without records gives no record, and one with anything behind its records is
/// refused.
pub proof fn law_responses_without_endpoints_are_no_records(
    domain: Seq<char>,
    sequence: Option<CertificateSequence>,
    tail: Seq<u8>,
    packets: Seq<Option<Vec<Answer>>>,
)
    ensures
        lookup_outcome(
            domain,
            sequence,
            response_encoding(Seq::<ResponseRecordModel>::empty()),
            packets,
        ) == Err::<Seq<EndpointAddr>, _>(H3LookupError::NoRecordFound),
        tail.len() > 0 ==> lookup_outcome(
            domain,
            sequence,
            response_encoding(Seq::<ResponseRecordModel>::empty()) + tail,
            packets,
        ) == Err::<Seq<EndpointAddr>, _>(
            H3LookupError::Decode { source: LookupDecodeError::MultiResponse },
        ),
{
    let none = Seq::<ResponseRecordModel>::empty();
    law_response_round_trip(none, Seq::empty());
    assert(response_encoding(none) + Seq::<u8>::empty() =~= response_encoding(none));
    if tail.len() > 0 {
        law_response_with_a_tail_is_refused(response_encoding(none), tail);
    }
}

/// A lookup asks the API of the server for the host, and for the sequence where one is wanted.
/// It cannot ask where the base is no base for a URL.
pub proof fn law_lookups_ask_for_the_host_and_the_sequence(
    base_url: Seq<char>,
    name: Seq<char>,
    sequence: CertificateSequence,
)
    ensures
        url_joined(base_url, "/api/v2/lookup"@) is None ==> lookup_address(base_url, name, None) is
            None && lookup_address(base_url, name, Some(sequence)) is None,
        url_joined(base_url, "/api/v2/lookup"@) matches Some(url) ==> {
            let asking = url_with_pair(url, "host"@, name);
            &&& url_has_room(url, pair_bytes("host"@, name)) ==> {
                &&& lookup_address(base_url, name, None) == asking
                &&& asking matches Some(asking) ==> url_has_room(
                    asking,
                    pair_bytes("sequence"@, decimal(sequence.number() as nat)),
                ) ==> lookup_address(base_url, name, Some(sequence)) == url_with_pair(
                    asking,
                    "sequence"@,
                    decimal(sequence.number() as nat),
                )
            }
        },
{
}

/// A request is tried three times, three seconds each.
pub proof fn law_requests_are_tried_three_times(attempts: LookupAttempts)
    ensures
        attempts.wf() <==> 1 <= attempts.attempt() <= 3,
        LOOKUP_REQUEST_ATTEMPTS * LOOKUP_REQUEST_TIMEOUT_SECS == 9,
{
}

/// The addresses that a publisher announces for a name are those that a lookup of the name
/// hands out, one for each, in their order, with their agents.
pub proof fn law_published_addresses_are_looked_up(
    addrs: Seq<EndpointAddr>,
    key: CertificateChainKey,
    record: ResponseRecordModel,
    answers: Vec<Answer>,
    domain: Seq<char>,
)
    requires
        addrs.len() > 0,
        record_fits(record),
        trustworthy(record),
        views(answers@) == announcing(
            domain,
            addrs.map_values(|addr: EndpointAddr| Endpoint::at(addr)),
            Some(key),
        ),
    ensures
        lookup_outcome(domain, None, response_encoding(seq![record]), seq![Some(answers)]) == Ok::<
            _,
            H3LookupError,
        >(addrs),
{
    let list = views(answers@);
    assert(list.len() == answers@.len());
    assert forall|i: int| 0 <= i < answers@.len() implies (#[trigger] answers@[i])@.name == domain
        && answers@[i]@.endpoint == Some(marked(Endpoint::at(addrs[i]), Some(key))) by {
        assert(list[i] == answers@[i]@);
    }
    law_announced_addresses_are_handed_out(record, answers, domain);
    let found = lookup_outcome(
        domain,
        None,
        response_encoding(seq![record]),
        seq![Some(answers)],
    )->Ok_0;
    assert forall|i: int| 0 <= i < addrs.len() implies found[i] == addrs[i] by {
        law_addresses_round_trip(addrs[i]);
        assert(found[i] == answers@[i]@.endpoint->0.address());
        law_marked_records_name_their_chain(Endpoint::at(addrs[i]), key);
    }
    assert(found =~= addrs);
}

} // verus!
