//! Taking records in: who may publish, and what is stored.
use vstd::prelude::*;

use crate::foreign::{certificate_alt_names, digestible, sha256};
use crate::protocol::packet::{Answer, AnswerModel};
use crate::protocol::signature::{fields_bounded, SignatureFields, SignatureFieldsModel};
use crate::protocol::wire::views;
use crate::server::error::{
    allowed_host, normalize_host, AppError, AppFault,
};
use crate::server::geo::GeoResolver;
use crate::server::policy::{
    chain_dns_names, client_allowed_host, decoded_answers, dns_names,
    law_packets_pass_exactly_for_their_host, names_host, policy_of, sole_host,
    validate_dns_packet, validation, well_signed, DomainPolicies, DomainPolicy,
    ValidatedDnsPacket,
};
use crate::server::query::same_but;
use crate::server::storage::{
    cert_fingerprint, HostModel, HostRecords, MemoryStorage, Record, RecordIndexTags, RecordModel,
};
use crate::text::{insert_sorted, lemma_text_before_total, strictly_sorted, text_eq};

verus! {

/// Some endpoint among the answers is in the country.
pub open spec fn in_country(answers: Seq<AnswerModel>, geo: GeoResolver, country: Seq<char>) -> bool {
    exists|i: int|
        0 <= i < answers.len() && (#[trigger] answers[i]).endpoint is Some && geo.traits_of(
            answers[i].endpoint->0.addr.spec_ip(),
        ).country == Some(country)
}

/// Some endpoint among the answers is in the autonomous system.
pub open spec fn in_asn(answers: Seq<AnswerModel>, geo: GeoResolver, asn: u32) -> bool {
    exists|i: int|
        0 <= i < answers.len() && (#[trigger] answers[i]).endpoint is Some && geo.traits_of(
            answers[i].endpoint->0.addr.spec_ip(),
        ).asn == Some(asn)
}

/// The numbers are in order and no number occurs twice.
pub open spec fn numbers_sorted(numbers: Seq<u32>) -> bool {
    forall|i: int, j: int|
        0 <= i < j < numbers.len() ==> #[trigger] numbers[i] < #[trigger] numbers[j]
}

/// The tags are the sorted countries and autonomous systems of the endpoints among the
/// answers. There are none where places are not known, or no answers.
pub open spec fn tags_of(
    tags: RecordIndexTags,
    answers: Option<Seq<AnswerModel>>,
    geo: Option<GeoResolver>,
) -> bool {
    match (answers, geo) {
        (Some(answers), Some(geo)) => {
            &&& strictly_sorted(views(tags.countries@))
            &&& numbers_sorted(tags.asns@)
            &&& forall|c: Seq<char>| #[trigger]
                views(tags.countries@).contains(c) <==> in_country(answers, geo, c)
            &&& forall|n: u32| #[trigger] tags.asns@.contains(n) <==> in_asn(answers, geo, n)
        },
        _ => tags.countries@.len() == 0 && tags.asns@.len() == 0,
    }
}

/// The answers of a packet, where it could be decoded.
pub open spec fn given_answers(answers: Option<&Vec<Answer>>) -> Option<Seq<AnswerModel>> {
    match answers {
        Some(answers) => Some(views(answers@)),
        None => None,
    }
}

/// What is known of places, where something is.
pub open spec fn given_geo(geo: Option<&GeoResolver>) -> Option<GeoResolver> {
    match geo {
        Some(geo) => Some(*geo),
        None => None,
    }
}

fn insert_number(list: &mut Vec<u32>, item: u32)
    requires
        numbers_sorted(old(list)@),
    ensures
        numbers_sorted(final(list)@),
        forall|n: u32| #[trigger]
            final(list)@.contains(n) <==> old(list)@.contains(n) || n == item,
{
    let ghost before = list@;
    let mut p: usize = 0;
    while p < list.len() && list[p] < item
        invariant
            *list == *old(list),
            p <= list@.len(),
            before == list@,
            forall|j: int| 0 <= j < p ==> #[trigger] before[j] < item,
        decreases list@.len() - p,
    {
        p = p + 1;
    }
    if p < list.len() && list[p] == item {
        assert(before.contains(item));
        return ;
    }
    list.insert(p, item);
    proof {
        let after = list@;
        assert(after == before.insert(p as int, item));
        assert forall|n: u32| #[trigger] after.contains(n) <==> before.contains(n) || n == item by {
            if after.contains(n) {
                let k = choose|k: int| 0 <= k < after.len() && after[k] == n;
                if k < p {
                    assert(before[k] == n);
                } else if k > p {
                    assert(before[k - 1] == n);
                }
            }
            if before.contains(n) {
                let k = choose|k: int| 0 <= k < before.len() && before[k] == n;
                if k < p {
                    assert(after[k] == n);
                } else {
                    assert(after[k + 1] == n);
                }
            }
            if n == item {
                assert(after[p as int] == n);
            }
        }
        assert forall|i: int, j: int| 0 <= i < j < after.len() implies #[trigger] after[i]
            < #[trigger] after[j] by {
            let i2 = if i < p {
                i
            } else {
                i - 1
            };
            let j2 = if j < p {
                j
            } else {
                j - 1
            };
            if i == p {
                assert(after[j] == before[j2]);
                assert(before[p as int] > item);
            } else if j == p {
                assert(after[i] == before[i2]);
            } else {
                assert(after[i] == before[i2] && after[j] == before[j2]);
            }
        }
    }
}

proof fn lemma_sorted_tags_are_unique(tags: RecordIndexTags)
    requires
        strictly_sorted(views(tags.countries@)),
        numbers_sorted(tags.asns@),
    ensures
        tags.wf(),
{
    let texts = views(tags.countries@);
    assert forall|i: int, j: int|
        0 <= i < texts.len() && 0 <= j < texts.len() && i != j implies texts[i] != texts[j] by {
        lemma_text_before_total(texts[i], texts[j]);
        lemma_text_before_total(texts[i], texts[i]);
        if i < j {
            assert(crate::text::text_before(texts[i], texts[j]));
        } else {
            assert(crate::text::text_before(texts[j], texts[i]));
        }
    }
}

/// The countries and autonomous systems of the endpoints among some answers.
pub fn record_index_tags(answers: Option<&Vec<Answer>>, geo: Option<&GeoResolver>) -> (r:
    RecordIndexTags)
    ensures
        r.wf(),
        tags_of(
            r,
            given_answers(answers),
            given_geo(geo),
        ),
{
    match (answers, geo) {
        (Some(answers), Some(geo)) => {
            let ghost texts = views(answers@);
            let mut tags = RecordIndexTags::default();
            let mut i: usize = 0;
            proof {
                assert(views(tags.countries@) =~= Seq::<Seq<char>>::empty());
                assert(texts.take(0) =~= Seq::<AnswerModel>::empty());
            }
            while i < answers.len()
                invariant
                    i <= answers@.len(),
                    texts == views(answers@),
                    tags_of(tags, Some(texts.take(i as int)), Some(*geo)),
                decreases answers@.len() - i,
            {
                let ghost done = texts.take(i as int);
                let ghost more = texts.take(i + 1);
                let ghost countries = views(tags.countries@);
                let ghost asns = tags.asns@;
                proof {
                    assert(more =~= done.push(answers@[i as int]@));
                    assert(more[i as int] == answers@[i as int]@);
                    assert forall|c: Seq<char>| #[trigger] in_country(more, *geo, c) <==> (
                    in_country(done, *geo, c) || (more[i as int].endpoint is Some && geo.traits_of(
                        more[i as int].endpoint->0.addr.spec_ip(),
                    ).country == Some(c))) by {
                        lemma_in_country_push(done, more[i as int], *geo, c);
                    }
                    assert forall|n: u32| #[trigger] in_asn(more, *geo, n) <==> (in_asn(
                        done,
                        *geo,
                        n,
                    ) || (more[i as int].endpoint is Some && geo.traits_of(
                        more[i as int].endpoint->0.addr.spec_ip(),
                    ).asn == Some(n))) by {
                        lemma_in_asn_push(done, more[i as int], *geo, n);
                    }
                }
                if let Some(endpoint) = answers[i].endpoint {
                    let traits = geo.lookup_traits(endpoint.addr.ip());
                    if let Some(country) = traits.country {
                        let ghost name = country@;
                        insert_sorted(&mut tags.countries, country);
                        assert forall|c: Seq<char>| #[trigger]
                            views(tags.countries@).contains(c) <==> countries.contains(c) || c
                                == name by {
                            assert(views(tags.countries@).to_set().contains(c)
                                <==> countries.to_set().insert(name).contains(c));
                        }
                    }
                    if let Some(asn) = traits.asn {
                        insert_number(&mut tags.asns, asn);
                    }
                }
                i = i + 1;
            }
            proof {
                assert(texts.take(i as int) =~= texts);
                lemma_sorted_tags_are_unique(tags);
            }
            tags
        },
        _ => RecordIndexTags::default(),
    }
}

proof fn lemma_in_country_push(
    done: Seq<AnswerModel>,
    answer: AnswerModel,
    geo: GeoResolver,
    c: Seq<char>,
)
    ensures
        in_country(done.push(answer), geo, c) <==> in_country(done, geo, c) || (
        answer.endpoint is Some && geo.traits_of(answer.endpoint->0.addr.spec_ip()).country
            == Some(c)),
{
    let more = done.push(answer);
    if in_country(done, geo, c) {
        let k = choose|k: int|
            0 <= k < done.len() && (#[trigger] done[k]).endpoint is Some && geo.traits_of(
                done[k].endpoint->0.addr.spec_ip(),
            ).country == Some(c);
        assert(more[k] == done[k]);
    }
    if answer.endpoint is Some && geo.traits_of(answer.endpoint->0.addr.spec_ip()).country == Some(
        c,
    ) {
        assert(more[done.len() as int] == answer);
    }
    if in_country(more, geo, c) {
        let k = choose|k: int|
            0 <= k < more.len() && (#[trigger] more[k]).endpoint is Some && geo.traits_of(
                more[k].endpoint->0.addr.spec_ip(),
            ).country == Some(c);
        if k < done.len() {
            assert(done[k] == more[k]);
        }
    }
}

proof fn lemma_in_asn_push(done: Seq<AnswerModel>, answer: AnswerModel, geo: GeoResolver, n: u32)
    ensures
        in_asn(done.push(answer), geo, n) <==> in_asn(done, geo, n) || (answer.endpoint is Some
            && geo.traits_of(answer.endpoint->0.addr.spec_ip()).asn == Some(n)),
{
    let more = done.push(answer);
    if in_asn(done, geo, n) {
        let k = choose|k: int|
            0 <= k < done.len() && (#[trigger] done[k]).endpoint is Some && geo.traits_of(
                done[k].endpoint->0.addr.spec_ip(),
            ).asn == Some(n);
        assert(more[k] == done[k]);
    }
    if answer.endpoint is Some && geo.traits_of(answer.endpoint->0.addr.spec_ip()).asn == Some(n) {
        assert(more[done.len() as int] == answer);
    }
    if in_asn(more, geo, n) {
        let k = choose|k: int|
            0 <= k < more.len() && (#[trigger] more[k]).endpoint is Some && geo.traits_of(
                more[k].endpoint->0.addr.spec_ip(),
            ).asn == Some(n);
        if k < done.len() {
            assert(done[k] == more[k]);
        }
    }
}

/// The rules that the server goes by.
#[derive(Debug, PartialEq, Eq)]
pub struct AppState {
    pub host_allowlist: Vec<String>,
    pub require_signature: bool,
    pub ttl_secs: u64,
    pub policies: DomainPolicies,
}

/// Who publishes what, before the packet is known.
#[derive(Debug, PartialEq, Eq)]
pub struct PublishTicket {
    pub host: String,
    pub policy: DomainPolicy,
}

/// Whether a client may publish for the host that it names, and the normal form of
/// the host.
pub open spec fn authorization(
    host: Option<Seq<char>>,
    client: Option<Seq<Seq<u8>>>,
    allowlist: Seq<Seq<char>>,
    policies: DomainPolicies,
) -> Result<Seq<char>, AppFault> {
    match host {
        None => Err(AppFault::MissingHostParam),
        Some(host) => match allowed_host(host, allowlist) {
            Err(fault) => Err(fault),
            Ok(name) => match client {
                None => Err(AppFault::MissingClientCertificate),
                Some(chain) => {
                    let names = chain_dns_names(chain);
                    if policy_of(policies.0@, name) is OpenMulti || sole_host(
                        names,
                        allowlist,
                        name,
                    ) {
                        Ok(name)
                    } else if exists|other: Seq<char>| sole_host(names, allowlist, other) {
                        Err(AppFault::HostMismatch)
                    } else {
                        Err(AppFault::ClientCertDomainNotAllowed)
                    }
                },
            },
        },
    }
}

/// Decides whether a client may publish for the host that it names. `client` is the
/// certificate chain of the client, the leaf first, where it has one.
pub fn authorize_publish(
    state: &AppState,
    host: Option<&str>,
    client: Option<&Vec<Vec<u8>>>,
) -> (r: Result<PublishTicket, AppError>)
    ensures
        match (
            r,
            authorization(
                match host {
                    Some(host) => Some(host@),
                    None => None,
                },
                match client {
                    Some(chain) => Some(views(chain@)),
                    None => None,
                },
                views(state.host_allowlist@),
                state.policies,
            ),
        ) {
            (Ok(ticket), Ok(name)) => ticket.host@ == name && ticket.policy == policy_of(
                state.policies.0@,
                name,
            ),
            (Err(e), Err(fault)) => e@ == fault,
            _ => false,
        },
{
    let host = match host {
        Some(host) => host,
        None => return Err(AppError::MissingHostParam),
    };
    let name = match normalize_host(host, &state.host_allowlist) {
        Ok(name) => name,
        Err(e) => return Err(e),
    };
    let chain = match client {
        Some(chain) => chain,
        None => return Err(AppError::MissingClientCertificate),
    };
    let policy = state.policies.policy_for(name.as_str());
    match policy {
        DomainPolicy::Standard => {
            let ghost names = chain_dns_names(views(chain@));
            let ghost allow = views(state.host_allowlist@);
            let allowed = match client_allowed_host(chain, &state.host_allowlist) {
                Ok(allowed) => allowed,
                Err(e) => {
                    assert(!sole_host(names, allow, name@));
                    return Err(e);
                },
            };
            if !text_eq(allowed.as_str(), name.as_str()) {
                proof {
                    assert(sole_host(names, allow, allowed@));
                    if sole_host(names, allow, name@) {
                        assert(crate::server::policy::names_host(names, allow, name@));
                        assert(name@ == allowed@);
                    }
                }
                return Err(AppError::HostMismatch);
            }
        },
        DomainPolicy::OpenMulti => {},
    }
    Ok(PublishTicket { host: name, policy })
}

/// The signature fields in the headers of a request. A missing header is an empty
/// field.
pub fn signature_fields_from_headers(
    content_digest: Option<Vec<u8>>,
    signature_input: Option<Vec<u8>>,
    signature: Option<Vec<u8>>,
) -> (r: SignatureFields)
    ensures
        r@ == (SignatureFieldsModel {
            content_digest: header_value(content_digest),
            signature_input: header_value(signature_input),
            signature: header_value(signature),
        }),
{
    SignatureFields {
        content_digest: match content_digest {
            Some(value) => value,
            None => Vec::new(),
        },
        signature_input: match signature_input {
            Some(value) => value,
            None => Vec::new(),
        },
        signature: match signature {
            Some(value) => value,
            None => Vec::new(),
        },
    }
}

pub open spec fn header_value(value: Option<Vec<u8>>) -> Seq<u8> {
    match value {
        Some(value) => value@,
        None => Seq::empty(),
    }
}

/// What is to be done with a packet.
#[derive(Debug, Clone, Copy, PartialEq, Eq, Structural)]
pub enum PublishAction {
    /// The packet is stored as the record of the publisher.
    Store,
    /// The record of the publisher is taken away.
    Clear,
}

/// What is to be done with a packet for a host: store it, or clear the record where
/// it has no answers.
pub open spec fn publication(
    decoded: Result<Seq<AnswerModel>, Seq<char>>,
    packet: Seq<u8>,
    policy: DomainPolicy,
    require_signature: bool,
    chain: Seq<Seq<u8>>,
    fields: SignatureFieldsModel,
    allowlist: Seq<Seq<char>>,
    host: Seq<char>,
) -> Result<PublishAction, AppFault> {
    match validation(
        decoded,
        packet,
        policy is Standard && require_signature,
        chain,
        fields,
        allowlist,
        host,
    ) {
        Err(fault) => Err(fault),
        Ok(None) => Ok(PublishAction::Clear),
        Ok(Some(_)) => Ok(PublishAction::Store),
    }
}

/// Decides what is to be done with the packet in a request. `body` is the packet, or
/// why the body could not be read, and `decoded` its answers, or why it could not be
/// decoded.
pub fn decide_publish(
    state: &AppState,
    ticket: &PublishTicket,
    cert_chain: &Vec<Vec<u8>>,
    signature_fields: &SignatureFields,
    body: &Result<Vec<u8>, String>,
    decoded: &Result<Vec<Answer>, String>,
) -> (r: Result<PublishAction, AppError>)
    requires
        body is Ok ==> digestible((body->Ok_0)@),
        cert_chain@.len() > 0 ==> digestible(cert_chain@[0]@),
        fields_bounded(signature_fields@),
    ensures
        match *body {
            Err(message) => r is Err && (r->Err_0)@ == (AppFault::InvalidDnsPacket {
                message: message@,
            }),
            Ok(packet) => publication(
                decoded_answers(*decoded),
                packet@,
                ticket.policy,
                state.require_signature,
                views(cert_chain@),
                signature_fields@,
                views(state.host_allowlist@),
                ticket.host@,
            ) == (match r {
                Ok(action) => Ok(action),
                Err(e) => Err(e@),
            }),
        },
{
    let packet = match body {
        Ok(packet) => packet,
        Err(message) => return Err(AppError::InvalidDnsPacket { message: message.clone() }),
    };
    let require_signature = matches!(ticket.policy, DomainPolicy::Standard)
        && state.require_signature;
    let validated = match validate_dns_packet(
        decoded,
        packet.as_slice(),
        require_signature,
        cert_chain,
        signature_fields,
        &state.host_allowlist,
        ticket.host.as_str(),
    ) {
        Ok(validated) => validated,
        Err(e) => return Err(e),
    };
    match validated {
        ValidatedDnsPacket::Records { host } => {
            proof {
                let answers = decoded_answers(*decoded)->Ok_0;
                crate::server::policy::lemma_checked_answers(
                    answers,
                    views(state.host_allowlist@),
                    ticket.host@,
                );
                assert(answers[0].name == host@);
            }
            let packet_host = match normalize_host(host.as_str(), &state.host_allowlist) {
                Ok(name) => name,
                Err(e) => return Err(e),
            };
            if !text_eq(packet_host.as_str(), ticket.host.as_str()) {
                return Err(AppError::HostMismatch);
            }
            Ok(PublishAction::Store)
        },
        ValidatedDnsPacket::Empty => Ok(PublishAction::Clear),
    }
}

/// The leaf certificate of a chain, or nothing.
pub open spec fn leaf_of(chain: Seq<Seq<u8>>) -> Seq<u8> {
    if chain.len() == 0 {
        Seq::empty()
    } else {
        chain[0]
    }
}

/// The leaf certificate of a chain, or nothing.
pub fn leaf_certificate(cert_chain: &Vec<Vec<u8>>) -> (r: Vec<u8>)
    ensures
        r@ == leaf_of(views(cert_chain@)),
{
    if cert_chain.is_empty() {
        let none: Vec<u8> = Vec::new();
        assert(none@ =~= Seq::<u8>::empty());
        return none;
    }
    assert(views(cert_chain@)[0] == cert_chain@[0]@);
    vstd::slice::slice_to_vec(cert_chain[0].as_slice())
}

/// The time in nanoseconds at which what is published now goes stale.
pub open spec fn expiry(now: u128, ttl_secs: u64) -> int {
    now + ttl_secs * 1_000_000_000
}

/// Stores a packet as the record of a publisher, in place of the one it had. Stale
/// records of the host are dropped on the way. `answers` are those of the packet.
pub fn publish_in_memory(
    storage: &mut MemoryStorage,
    host: &str,
    body: &[u8],
    cert_chain: &Vec<Vec<u8>>,
    signature_fields: SignatureFields,
    answers: Option<&Vec<Answer>>,
    geo: Option<&GeoResolver>,
    ttl_secs: u64,
    now: u128,
)
    requires
        old(storage).wf(),
        digestible(leaf_of(views(cert_chain@))),
        expiry(now, ttl_secs) <= u128::MAX,
    ensures
        final(storage).wf(),
        same_but(*final(storage), *old(storage), host@),
        exists|tags: RecordIndexTags| #[trigger]
            tags_of(
                tags,
                given_answers(answers),
                given_geo(geo),
            ) && final(storage).host(host@) == old(storage).host(host@).active(now).inserted(
                sha256(leaf_of(views(cert_chain@))),
                RecordModel {
                    dns: body@,
                    cert: leaf_of(views(cert_chain@)),
                    signature_fields: signature_fields@,
                    expire: expiry(now, ttl_secs) as u128,
                    countries: views(tags.countries@),
                    asns: tags.asns@,
                },
            ),
{
    let cert_bytes = leaf_certificate(cert_chain);
    let fingerprint = cert_fingerprint(cert_bytes.as_slice());
    let index_tags = record_index_tags(answers, geo);
    let ghost tags = index_tags;
    let record = Record {
        dns_bytes: vstd::slice::slice_to_vec(body),
        cert_bytes,
        signature_fields,
        expire: now + ttl_secs as u128 * 1_000_000_000,
        index_tags,
    };
    let mut entry = match storage.take(host) {
        Some(entry) => entry,
        None => HostRecords::default(),
    };
    entry.retain_active(now);
    entry.insert(fingerprint, record);
    storage.put(host, entry);
    proof {
        assert(storage.hosts().remove(host@) =~= old(storage).hosts().remove(host@));
        assert(tags_of(
            tags,
            given_answers(answers),
            given_geo(geo),
        ));
    }
}

/// Takes the record of a publisher away, and the host with it where it was the last
/// one.
pub fn clear_in_memory(storage: &mut MemoryStorage, host: &str, cert_chain: &Vec<Vec<u8>>)
    requires
        old(storage).wf(),
        digestible(leaf_of(views(cert_chain@))),
    ensures
        final(storage).wf(),
        same_but(*final(storage), *old(storage), host@),
        final(storage).host(host@) == old(storage).host(host@).removed(
            sha256(leaf_of(views(cert_chain@))),
        ),
        final(storage).hosts().dom().contains(host@) ==> final(storage).host(host@)
            != HostModel::empty(),
{
    let cert_bytes = leaf_certificate(cert_chain);
    let fingerprint = cert_fingerprint(cert_bytes.as_slice());
    match storage.take(host) {
        Some(mut entry) => {
            let _ = entry.remove(&fingerprint);
            if !entry.is_empty() {
                storage.put(host, entry);
            }
            assert(storage.hosts().remove(host@) =~= old(storage).hosts().remove(host@));
        },
        None => {
            proof {
                reveal(Seq::filter);
                let empty = HostModel::empty();
                assert(empty.removed(fingerprint@).recent =~= empty.recent);
                assert(empty.removed(fingerprint@).records =~= empty.records);
                assert(storage.hosts() =~= old(storage).hosts());
            }
        },
    }
}

/// A packet whose answers are all for the host is stored, however many they are: under a
/// standard policy where its signature is good or none is required, and under an open policy
/// in any case. A packet without answers clears what is stored.
pub proof fn law_packets_for_the_host_are_stored(
    answers: Seq<AnswerModel>,
    packet: Seq<u8>,
    policy: DomainPolicy,
    require_signature: bool,
    chain: Seq<Seq<u8>>,
    fields: SignatureFieldsModel,
    allowlist: Seq<Seq<char>>,
    host: Seq<char>,
)
    requires
        policy is OpenMulti || !require_signature || well_signed(answers, packet, chain, fields),
    ensures
        ({
            let r = publication(
                Ok(answers),
                packet,
                policy,
                require_signature,
                chain,
                fields,
                allowlist,
                host,
            );
            let named = forall|i: int|
                0 <= i < answers.len() ==> allowed_host((#[trigger] answers[i]).name, allowlist)
                    == Ok::<_, AppFault>(host);
            &&& named && answers.len() > 0 ==> r == Ok::<_, AppFault>(PublishAction::Store)
            &&& answers.len() == 0 ==> r == Ok::<_, AppFault>(PublishAction::Clear)
            &&& !named ==> r is Err
        }),
{
    law_packets_pass_exactly_for_their_host(
        answers,
        packet,
        policy is Standard && require_signature,
        chain,
        fields,
        allowlist,
        host,
    );
}

/// Under a standard policy, a packet that is not well signed is refused where a signature is
/// required, and a packet that cannot be decoded is refused in any case.
pub proof fn law_packets_without_a_good_signature_are_refused(
    answers: Seq<AnswerModel>,
    message: Seq<char>,
    packet: Seq<u8>,
    policy: DomainPolicy,
    require_signature: bool,
    chain: Seq<Seq<u8>>,
    fields: SignatureFieldsModel,
    allowlist: Seq<Seq<char>>,
    host: Seq<char>,
)
    ensures
        !well_signed(answers, packet, chain, fields) ==> publication(
            Ok(answers),
            packet,
            DomainPolicy::Standard,
            true,
            chain,
            fields,
            allowlist,
            host,
        ) is Err,
        publication(
            Err(message),
            packet,
            policy,
            require_signature,
            chain,
            fields,
            allowlist,
            host,
        ) == Err::<PublishAction, _>(AppFault::InvalidDnsPacket { message }),
{
    law_packets_pass_exactly_for_their_host(
        answers,
        packet,
        true,
        chain,
        fields,
        allowlist,
        host,
    );
}

/// Some DNS name of the first certificate has this normal form, and it is allowed.
pub open spec fn certified(
    chain: Seq<Seq<u8>>,
    allowlist: Seq<Seq<char>>,
    host: Seq<char>,
) -> bool {
    chain.len() > 0 && certificate_alt_names(chain[0]) is Some && exists|i: int|
        0 <= i < certificate_alt_names(chain[0])->0.len() && (#[trigger] certificate_alt_names(
            chain[0],
        )->0[i]) is Some && allowed_host(certificate_alt_names(chain[0])->0[i]->0, allowlist)
            == Ok::<_, AppFault>(host)
}

proof fn lemma_dns_names_contain(names: Seq<Option<Seq<char>>>, name: Seq<char>)
    ensures
        dns_names(names).contains(name) <==> names.contains(Some(name)),
    decreases names.len(),
{
    if names.len() > 0 {
        let front = names.drop_last();
        lemma_dns_names_contain(front, name);
        assert(names =~= front.push(names.last()));
        if front.contains(Some(name)) {
            let i = front.index_of(Some(name));
            assert(names[i] == Some(name));
        }
        if names.contains(Some(name)) {
            let i = names.index_of(Some(name));
            if i < front.len() {
                assert(front[i] == Some(name));
            }
        }
        if let Some(last) = names.last() {
            let known = dns_names(front);
            assert(known.push(last)[known.len() as int] == last);
            if known.contains(name) {
                let i = known.index_of(name);
                assert(known.push(last)[i] == name);
            }
            if known.push(last).contains(name) && name != last {
                let i = known.push(last).index_of(name);
                assert(known[i] == name);
            }
            if name == last {
                assert(names[names.len() - 1] == Some(name));
            }
        }
    }
}

proof fn lemma_certified(chain: Seq<Seq<u8>>, allowlist: Seq<Seq<char>>, host: Seq<char>)
    ensures
        names_host(chain_dns_names(chain), allowlist, host) <==> certified(chain, allowlist, host),
{
    if chain.len() > 0 {
        if let Some(names) = certificate_alt_names(chain[0]) {
            let texts = dns_names(names);
            if names_host(texts, allowlist, host) {
                let i = choose|i: int|
                    0 <= i < texts.len() && allowed_host(#[trigger] texts[i], allowlist) == Ok::<
                        _,
                        AppFault,
                    >(host);
                lemma_dns_names_contain(names, texts[i]);
                assert(texts.contains(texts[i]));
                let k = names.index_of(Some(texts[i]));
                assert(names[k] is Some);
            }
            if certified(chain, allowlist, host) {
                let k = choose|k: int|
                    0 <= k < names.len() && (#[trigger] names[k]) is Some && allowed_host(
                        names[k]->0,
                        allowlist,
                    ) == Ok::<_, AppFault>(host);
                lemma_dns_names_contain(names, names[k]->0);
                assert(names.contains(names[k]));
                let i = texts.index_of(names[k]->0);
                assert(allowed_host(texts[i], allowlist) == Ok::<_, AppFault>(host));
            }
        }
    }
}

/// A publisher may publish for a host exactly where it is allowed, the publisher has a
/// certificate, and either the host is open to all or the certificate is for this one allowed
/// host and no other.
pub proof fn law_publishers_are_authorized_by_their_certificate(
    host: Seq<char>,
    name: Seq<char>,
    chain: Seq<Seq<u8>>,
    allowlist: Seq<Seq<char>>,
    policies: DomainPolicies,
)
    requires
        allowed_host(host, allowlist) == Ok::<_, AppFault>(name),
    ensures
        ({
            let r = authorization(Some(host), Some(chain), allowlist, policies);
            let own = certified(chain, allowlist, name);
            let foreign = exists|other: Seq<char>|
                other != name && #[trigger] certified(chain, allowlist, other);
            &&& r is Ok ==> r == Ok::<_, AppFault>(name)
            &&& r is Ok <==> policy_of(policies.0@, name) is OpenMulti || (own && !foreign)
            &&& r is Err && !foreign ==> r == Err::<Seq<char>, _>(
                AppFault::ClientCertDomainNotAllowed,
            )
            &&& r is Err && own ==> r == Err::<Seq<char>, _>(
                AppFault::ClientCertDomainNotAllowed,
            )
            &&& r is Err && r != Err::<Seq<char>, _>(AppFault::ClientCertDomainNotAllowed) ==> r
                == Err::<Seq<char>, _>(AppFault::HostMismatch)
            &&& r is Err ==> (r == Err::<Seq<char>, _>(AppFault::HostMismatch) <==> (exists|
                other: Seq<char>,
            |
                #[trigger] certified(chain, allowlist, other) && forall|another: Seq<char>|
                    #[trigger] certified(chain, allowlist, another) ==> another == other))
        }),
{
    let names = chain_dns_names(chain);
    assert forall|other: Seq<char>|
        #![trigger names_host(names, allowlist, other)]
        #![trigger certified(chain, allowlist, other)]
        names_host(names, allowlist, other) <==> certified(chain, allowlist, other) by {
        lemma_certified(chain, allowlist, other);
    }
    let r = authorization(Some(host), Some(chain), allowlist, policies);
    let own = certified(chain, allowlist, name);
    let foreign = exists|other: Seq<char>|
        other != name && #[trigger] certified(chain, allowlist, other);
    if sole_host(names, allowlist, name) {
        if foreign {
            let other = choose|other: Seq<char>|
                other != name && #[trigger] certified(chain, allowlist, other);
            assert(names_host(names, allowlist, other));
        }
    }
    if own && !foreign {
        assert(sole_host(names, allowlist, name));
    }
    if exists|other: Seq<char>| sole_host(names, allowlist, other) {
        let other = choose|other: Seq<char>| sole_host(names, allowlist, other);
        assert(certified(chain, allowlist, other));
    }
    if exists|other: Seq<char>|
        #[trigger] certified(chain, allowlist, other) && forall|another: Seq<char>|
            #[trigger] certified(chain, allowlist, another) ==> another == other {
        let other = choose|other: Seq<char>|
            #[trigger] certified(chain, allowlist, other) && forall|another: Seq<char>|
                #[trigger] certified(chain, allowlist, another) ==> another == other;
        assert(sole_host(names, allowlist, other));
    }
}

/// A request to publish without a host, for a host that is not allowed, or from a client
/// without a certificate is refused for that, in this order.
pub proof fn law_incomplete_publications_are_refused(
    host: Seq<char>,
    client: Option<Seq<Seq<u8>>>,
    allowlist: Seq<Seq<char>>,
    policies: DomainPolicies,
)
    ensures
        authorization(None, client, allowlist, policies) == Err::<Seq<char>, _>(
            AppFault::MissingHostParam,
        ),
        allowed_host(host, allowlist) is Err ==> authorization(
            Some(host),
            client,
            allowlist,
            policies,
        ) == allowed_host(host, allowlist),
        allowed_host(host, allowlist) is Ok ==> authorization(
            Some(host),
            None,
            allowlist,
            policies,
        ) == Err::<Seq<char>, _>(AppFault::MissingClientCertificate),
{
}

/// A record lives for its time to live from the moment when it is published.
pub proof fn law_records_live_for_their_time(now: u128, ttl_secs: u64, later: int)
    requires
        now <= later,
    ensures
        expiry(now, ttl_secs) > later <==> later - now < ttl_secs * 1_000_000_000,
{
}

/// A record is tagged with the countries and the autonomous systems of the endpoints that it
/// announces, each once, and with nothing else. Without places, or without answers, it has no
/// tags.
pub proof fn law_records_are_tagged_with_the_places_of_their_endpoints(
    tags: RecordIndexTags,
    answers: Seq<AnswerModel>,
    geo: GeoResolver,
    country: Seq<char>,
    asn: u32,
)
    ensures
        tags_of(tags, Some(answers), Some(geo)) ==> {
            &&& views(tags.countries@).contains(country) <==> exists|i: int|
                0 <= i < answers.len() && (#[trigger] answers[i]).endpoint is Some && geo.traits_of(
                    answers[i].endpoint->0.addr.spec_ip(),
                ).country == Some(country)
            &&& tags.asns@.contains(asn) <==> exists|i: int|
                0 <= i < answers.len() && (#[trigger] answers[i]).endpoint is Some && geo.traits_of(
                    answers[i].endpoint->0.addr.spec_ip(),
                ).asn == Some(asn)
            &&& views(tags.countries@).no_duplicates()
            &&& tags.asns@.no_duplicates()
        },
        tags_of(tags, None, Some(geo)) ==> tags.countries@.len() == 0 && tags.asns@.len() == 0,
        tags_of(tags, Some(answers), None) ==> tags.countries@.len() == 0 && tags.asns@.len() == 0,
        tags_of(tags, None, None) ==> tags.countries@.len() == 0 && tags.asns@.len() == 0,
{
    if tags_of(tags, Some(answers), Some(geo)) {
        lemma_sorted_tags_are_unique(tags);
        assert(views(tags.countries@).contains(country) <==> in_country(answers, geo, country));
        assert(tags.asns@.contains(asn) <==> in_asn(answers, geo, asn));
    }
}

/// The certificate of a publisher is the first one of its chain.
pub proof fn law_the_first_certificate_is_that_of_the_publisher(chain: Seq<Seq<u8>>)
    ensures
        chain.len() > 0 ==> leaf_of(chain) == chain[0],
        chain.len() == 0 ==> leaf_of(chain).len() == 0,
{
}

/// A header that is missing is the same as an empty one.
pub proof fn law_missing_headers_are_empty(value: Vec<u8>)
    ensures
        header_value(Some(value)) == value@,
        header_value(None).len() == 0,
{
}

/// Answers and places count where they are given.
pub proof fn law_what_is_given_counts(answers: &Vec<Answer>, geo: &GeoResolver)
    ensures
        given_answers(Some(answers)) == Some(views(answers@)),
        given_answers(None) is None,
        given_geo(Some(geo)) == Some(*geo),
        given_geo(None) is None,
{
}

} // verus!
