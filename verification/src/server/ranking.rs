//! Which records a lookup answers with, and in which order.
use vstd::prelude::*;

use std::cmp::Ordering;

use crate::measure::{compare_optional_partial, optional_less, Measure};
use crate::net::{IpAddress, SocketAddress};
use crate::protocol::packet::{clone_answers, Answer, AnswerModel, Endpoint, EndpointKey};
use crate::protocol::signature::{SignatureFields, SignatureFieldsModel};
use crate::protocol::wire::{lemma_views_push, views, ResponseRecord};
use crate::server::geo::{GeoResolver, GeoTraits, GeoTraitsModel};
use crate::server::rank::{
    arranged, as_order, consistent, is_permutation, law_rank_order_is_permutation,
    law_rank_order_is_ranked, lemma_rank_order_by_class, lemma_rank_order_reaches, rank,
    rank_order, ranked, ranks_before, RankKey,
};
use crate::text::text_eq;

verus! {

/// A record on its way to a client, with its packet decoded.
#[derive(Debug, PartialEq, Eq)]
pub struct LookupRecord {
    pub signature_fields: SignatureFields,
    /// The encoded packet, or `None` for a packet that is yet to be encoded from its
    /// answers.
    pub dns: Option<Vec<u8>>,
    /// The answers of the packet, or `None` where it cannot be decoded.
    pub answers: Option<Vec<Answer>>,
    pub cert: Vec<u8>,
}

/// The contents of a [`LookupRecord`].
pub struct LookupModel {
    pub signature_fields: SignatureFieldsModel,
    pub dns: Option<Seq<u8>>,
    pub answers: Option<Seq<AnswerModel>>,
    pub cert: Seq<u8>,
}

impl View for LookupRecord {
    type V = LookupModel;

    open spec fn view(&self) -> LookupModel {
        LookupModel {
            signature_fields: self.signature_fields@,
            dns: match self.dns {
                Some(dns) => Some(dns@),
                None => None,
            },
            answers: match self.answers {
                Some(answers) => Some(views(answers@)),
                None => None,
            },
            cert: self.cert@,
        }
    }
}

impl Clone for LookupRecord {
    fn clone(&self) -> (r: Self)
        ensures
            r@ == self@,
    {
        LookupRecord {
            signature_fields: self.signature_fields.clone(),
            dns: match &self.dns {
                Some(dns) => Some(vstd::slice::slice_to_vec(dns.as_slice())),
                None => None,
            },
            answers: match &self.answers {
                Some(answers) => Some(clone_answers(answers)),
                None => None,
            },
            cert: vstd::slice::slice_to_vec(self.cert.as_slice()),
        }
    }
}

impl LookupRecord {
    /// A stored record with the answers of its packet.
    pub fn new(record: ResponseRecord, answers: Option<Vec<Answer>>) -> (r: Self)
        ensures
            r@ == (LookupModel {
                signature_fields: record@.signature_fields,
                dns: Some(record@.dns),
                answers: match answers {
                    Some(answers) => Some(views(answers@)),
                    None => None,
                },
                cert: record@.cert,
            }),
    {
        LookupRecord {
            signature_fields: record.signature_fields,
            dns: Some(record.dns),
            answers,
            cert: record.cert,
        }
    }
}

/// The record that announces one endpoint, without a signature.
pub open spec fn endpoint_record(answer: AnswerModel, cert: Seq<u8>) -> LookupModel {
    LookupModel {
        signature_fields: SignatureFieldsModel::unsigned(),
        dns: None,
        answers: Some(seq![answer]),
        cert,
    }
}

/// The records collected so far, and the endpoints in those that were split.
#[verifier::ext_equal]
pub struct Collected {
    pub records: Seq<LookupModel>,
    pub seen: Set<EndpointKey>,
}

/// Collects the endpoints among some answers, each as a record of its own, unless it
/// was collected before.
pub open spec fn collect_endpoints(
    collected: Collected,
    answers: Seq<AnswerModel>,
    cert: Seq<u8>,
) -> Collected
    decreases answers.len(),
{
    if answers.len() == 0 {
        collected
    } else {
        let so_far = collect_endpoints(collected, answers.drop_last(), cert);
        match answers.last().endpoint {
            Some(endpoint) => if so_far.seen.contains(endpoint.key()) {
                so_far
            } else {
                Collected {
                    records: so_far.records.push(endpoint_record(answers.last(), cert)),
                    seen: so_far.seen.insert(endpoint.key()),
                }
            },
            None => so_far,
        }
    }
}

/// Some answer announces an endpoint.
pub open spec fn has_endpoint(answers: Seq<AnswerModel>) -> bool {
    exists|i: int| 0 <= i < answers.len() && (#[trigger] answers[i]).endpoint is Some
}

/// Whether the record is split into its endpoints: nobody signed it as a whole, and
/// it announces endpoints.
pub open spec fn is_split(record: LookupModel) -> bool {
    record.signature_fields == SignatureFieldsModel::unsigned() && record.answers is Some
        && has_endpoint(record.answers->0)
}

/// Collects one more record.
pub open spec fn collect_record(collected: Collected, record: LookupModel) -> Collected {
    if is_split(record) {
        collect_endpoints(collected, record.answers->0, record.cert)
    } else {
        Collected { records: collected.records.push(record), seen: collected.seen }
    }
}

/// Collects records one after the other.
pub open spec fn collect_records(records: Seq<LookupModel>) -> Collected
    decreases records.len(),
{
    if records.len() == 0 {
        Collected { records: Seq::empty(), seen: Set::empty() }
    } else {
        collect_record(collect_records(records.drop_last()), records.last())
    }
}

/// The records with the unsigned ones split into their endpoints. Signed records,
/// and those without endpoints, are kept whole, and no endpoint of a split record is
/// repeated.
pub open spec fn normalized(records: Seq<LookupModel>) -> Seq<LookupModel> {
    collect_records(records).records
}

fn contains_key(seen: &Vec<EndpointKey>, key: EndpointKey) -> (r: bool)
    ensures
        r == seen@.contains(key),
{
    let mut i: usize = 0;
    while i < seen.len()
        invariant
            i <= seen@.len(),
            forall|j: int| 0 <= j < i ==> seen@[j] != key,
        decreases seen@.len() - i,
    {
        if seen[i].0 == key.0 && same_agent(seen[i].1, key.1) {
            assert(seen@[i as int] == key);
            return true;
        }
        i = i + 1;
    }
    false
}

fn same_agent(a: Option<SocketAddress>, b: Option<SocketAddress>) -> (r: bool)
    ensures
        r == (a == b),
{
    match (a, b) {
        (Some(a), Some(b)) => a == b,
        (None, None) => true,
        _ => false,
    }
}

/// Splits the unsigned records into their endpoints. See [`normalized`].
pub fn normalize_lookup_records(records: Vec<LookupRecord>) -> (r: Vec<LookupRecord>)
    ensures
        views(r@) == normalized(views(records@)),
{
    let ghost all = views(records@);
    let mut normal: Vec<LookupRecord> = Vec::new();
    let mut seen: Vec<EndpointKey> = Vec::new();
    let mut i: usize = 0;
    proof {
        assert(views(normal@) =~= Seq::<LookupModel>::empty());
        assert(seen@.to_set() =~= Set::<EndpointKey>::empty());
    }
    while i < records.len()
        invariant
            i <= records@.len(),
            all == views(records@),
            collect_records(all.take(i as int)) == (Collected {
                records: views(normal@),
                seen: seen@.to_set(),
            }),
        decreases records@.len() - i,
    {
        let record = &records[i];
        let ghost before = Collected { records: views(normal@), seen: seen@.to_set() };
        proof {
            assert(all.take(i + 1).drop_last() =~= all.take(i as int));
            assert(all.take(i + 1).last() == record@);
        }
        let mut emitted = false;
        if record.signature_fields.is_empty() {
            if let Some(answers) = &record.answers {
                let ghost texts = views(answers@);
                let mut j: usize = 0;
                assert(texts.take(0) =~= Seq::<AnswerModel>::empty());
                while j < answers.len()
                    invariant
                        j <= answers@.len(),
                        texts == views(answers@),
                        emitted == has_endpoint(texts.take(j as int)),
                        collect_endpoints(before, texts.take(j as int), record.cert@) == (
                        Collected { records: views(normal@), seen: seen@.to_set() }),
                        !emitted ==> views(normal@) == before.records && seen@.to_set()
                            == before.seen,
                    decreases answers@.len() - j,
                {
                    let answer = &answers[j];
                    proof {
                        assert(texts.take(j + 1).drop_last() =~= texts.take(j as int));
                        assert(texts.take(j + 1).last() == answer@);
                        lemma_has_endpoint_step(texts, j as int);
                    }
                    if let Some(endpoint) = answer.endpoint {
                        emitted = true;
                        let key: EndpointKey = (endpoint.addr, endpoint.agent);
                        if !contains_key(&seen, key) {
                            let mut only: Vec<Answer> = Vec::new();
                            only.push(answer.clone());
                            let single = LookupRecord {
                                signature_fields: SignatureFields::empty(),
                                dns: None,
                                answers: Some(only),
                                cert: vstd::slice::slice_to_vec(record.cert.as_slice()),
                            };
                            proof {
                                assert(views(only@) =~= seq![answer@]);
                                assert(single@ == endpoint_record(answer@, record.cert@));
                                lemma_views_push(normal@, single);
                                seen@.lemma_push_to_set_commute(key);
                            }
                            normal.push(single);
                            seen.push(key);
                        }
                    }
                    j = j + 1;
                }
                assert(texts.take(j as int) =~= texts);
            }
        }
        if !emitted {
            let whole = record.clone();
            proof {
                lemma_views_push(normal@, whole);
            }
            normal.push(whole);
        }
        i = i + 1;
    }
    assert(all.take(i as int) =~= all);
    normal
}

proof fn lemma_has_endpoint_step(answers: Seq<AnswerModel>, n: int)
    requires
        0 <= n < answers.len(),
    ensures
        has_endpoint(answers.take(n + 1)) == (has_endpoint(answers.take(n))
            || answers[n].endpoint is Some),
{
    let less = answers.take(n);
    let more = answers.take(n + 1);
    if has_endpoint(less) {
        let i = choose|i: int| 0 <= i < less.len() && (#[trigger] less[i]).endpoint is Some;
        assert(more[i].endpoint is Some);
    }
    if answers[n].endpoint is Some {
        assert(more[n].endpoint is Some);
    }
    if has_endpoint(more) {
        let i = choose|i: int| 0 <= i < more.len() && (#[trigger] more[i]).endpoint is Some;
        if i < n {
            assert(less[i].endpoint is Some);
        }
    }
}

proof fn lemma_collect_again(collected: Collected, answers: Seq<AnswerModel>, cert: Seq<u8>)
    requires
        collect_records(collected.records) == collected,
    ensures
        ({
            let after = collect_endpoints(collected, answers, cert);
            collect_records(after.records) == after
        }),
    decreases answers.len(),
{
    if answers.len() > 0 {
        lemma_collect_again(collected, answers.drop_last(), cert);
        let so_far = collect_endpoints(collected, answers.drop_last(), cert);
        let after = collect_endpoints(collected, answers, cert);
        if let Some(endpoint) = answers.last().endpoint {
            if !so_far.seen.contains(endpoint.key()) {
                let single = endpoint_record(answers.last(), cert);
                assert(after.records.drop_last() =~= so_far.records);
                assert(after.records.last() == single);
                assert(single.answers->0[0].endpoint is Some);
                assert(has_endpoint(single.answers->0));
                assert(single.answers->0.drop_last() =~= Seq::<AnswerModel>::empty());
                assert(single.answers->0.last() == answers.last());
                assert(collect_endpoints(so_far, single.answers->0.drop_last(), cert) == so_far);
                assert(collect_record(so_far, single) == after);
            }
        }
    }
}

proof fn lemma_collect_twice(records: Seq<LookupModel>)
    ensures
        collect_records(collect_records(records).records) == collect_records(records),
    decreases records.len(),
{
    if records.len() > 0 {
        let before = collect_records(records.drop_last());
        let record = records.last();
        lemma_collect_twice(records.drop_last());
        if is_split(record) {
            lemma_collect_again(before, record.answers->0, record.cert);
        } else {
            let after = collect_record(before, record);
            assert(after.records.drop_last() =~= before.records);
        }
    }
}

/// Normalized records are left as they are.
pub proof fn law_normalizing_twice_is_normalizing_once(records: Seq<LookupModel>)
    ensures
        normalized(normalized(records)) == normalized(records),
{
    lemma_collect_twice(records);
}

/// The split records announce one endpoint each, all of them seen, none twice.
pub open spec fn endpoints_unique(collected: Collected) -> bool {
    &&& forall|i: int|
        0 <= i < collected.records.len() && is_split(#[trigger] collected.records[i]) ==> {
            let answers = collected.records[i].answers->0;
            answers.len() == 1 && answers[0].endpoint is Some && collected.seen.contains(
                answers[0].endpoint->0.key(),
            )
        }
    &&& forall|i: int, j: int|
        0 <= i < j < collected.records.len() && is_split(#[trigger] collected.records[i])
            && is_split(#[trigger] collected.records[j])
            ==> collected.records[i].answers->0[0].endpoint->0.key()
            != collected.records[j].answers->0[0].endpoint->0.key()
}

proof fn lemma_endpoints_stay_unique(
    collected: Collected,
    answers: Seq<AnswerModel>,
    cert: Seq<u8>,
)
    requires
        endpoints_unique(collected),
    ensures
        endpoints_unique(collect_endpoints(collected, answers, cert)),
    decreases answers.len(),
{
    if answers.len() > 0 {
        lemma_endpoints_stay_unique(collected, answers.drop_last(), cert);
        let so_far = collect_endpoints(collected, answers.drop_last(), cert);
        let after = collect_endpoints(collected, answers, cert);
        if let Some(endpoint) = answers.last().endpoint {
            if !so_far.seen.contains(endpoint.key()) {
                lemma_unique_push(so_far, answers.last(), cert);
            }
        }
    }
}

proof fn lemma_unique_push(so_far: Collected, answer: AnswerModel, cert: Seq<u8>)
    requires
        endpoints_unique(so_far),
        answer.endpoint is Some,
        !so_far.seen.contains(answer.endpoint->0.key()),
    ensures
        endpoints_unique(
            Collected {
                records: so_far.records.push(endpoint_record(answer, cert)),
                seen: so_far.seen.insert(answer.endpoint->0.key()),
            },
        ),
{
    let single = endpoint_record(answer, cert);
    let after = Collected {
        records: so_far.records.push(single),
        seen: so_far.seen.insert(answer.endpoint->0.key()),
    };
    let n = so_far.records.len() as int;
    assert(forall|i: int| 0 <= i < n ==> after.records[i] == so_far.records[i]);
    assert(after.records[n] == single);
    assert(single.answers->0[0] == answer);
}

/// In normalized records every unsigned record with endpoints announces exactly one,
/// and no two of them announce the same.
pub proof fn law_normalized_endpoints_are_unique(records: Seq<LookupModel>)
    ensures
        endpoints_unique(collect_records(records)),
        normalized(records) == collect_records(records).records,
    decreases records.len(),
{
    if records.len() > 0 {
        law_normalized_endpoints_are_unique(records.drop_last());
        let before = collect_records(records.drop_last());
        let record = records.last();
        if is_split(record) {
            lemma_endpoints_stay_unique(before, record.answers->0, record.cert);
        } else {
            let after = collect_record(before, record);
            let n = before.records.len() as int;
            assert(forall|i: int| 0 <= i < n ==> after.records[i] == before.records[i]);
            assert(after.records[n] == record);
        }
    }
}

/// The first endpoint among some answers.
pub open spec fn first_endpoint(answers: Seq<AnswerModel>) -> Option<Endpoint>
    decreases answers.len(),
{
    if answers.len() == 0 {
        None
    } else if answers[0].endpoint is Some {
        answers[0].endpoint
    } else {
        first_endpoint(answers.skip(1))
    }
}

/// The endpoint that a record is ranked by.
pub open spec fn ranked_endpoint(record: LookupModel) -> Option<Endpoint> {
    match record.answers {
        Some(answers) => first_endpoint(answers),
        None => None,
    }
}

/// The endpoint that a record is ranked by.
pub fn lookup_endpoint(record: &LookupRecord) -> (r: Option<Endpoint>)
    ensures
        r == ranked_endpoint(record@),
{
    match &record.answers {
        Some(answers) => {
            let ghost texts = views(answers@);
            let mut i: usize = 0;
            assert(texts.skip(0) =~= texts);
            while i < answers.len()
                invariant
                    i <= answers@.len(),
                    texts == views(answers@),
                    record@.answers == Some(texts),
                    first_endpoint(texts) == first_endpoint(texts.skip(i as int)),
                decreases answers@.len() - i,
            {
                assert(texts.skip(i as int)[0] == answers@[i as int]@);
                assert(texts.skip(i as int).skip(1) =~= texts.skip(i + 1));
                if let Some(endpoint) = answers[i].endpoint {
                    return Some(endpoint);
                }
                i = i + 1;
            }
            None
        },
        None => None,
    }
}

/// Whether the client and the endpoint have the same address family.
pub open spec fn family_matches(source: Option<IpAddress>, endpoint: SocketAddress) -> bool {
    match source {
        Some(source) => (source is V4) == (endpoint.spec_ip() is V4),
        None => false,
    }
}

fn matches_family(source_ip: Option<IpAddress>, endpoint: SocketAddress) -> (r: bool)
    ensures
        r == family_matches(source_ip, endpoint),
{
    match source_ip {
        Some(source) => source.is_ipv4() == endpoint.ip().is_ipv4(),
        None => false,
    }
}

/// What records are ranked by where nothing is known of places.
#[derive(Debug, Clone, Copy, PartialEq, Eq, Structural)]
pub struct FamilySortKey {
    pub family_match: bool,
    pub load: Option<Measure>,
}

impl RankKey for FamilySortKey {
    /// The same family comes first, then the lower load, then any load.
    open spec fn before(self, other: Self) -> bool {
        if self.family_match != other.family_match {
            self.family_match
        } else {
            match (self.load, other.load) {
                (Some(left), Some(right)) => left.less(right),
                (Some(_), None) => true,
                _ => false,
            }
        }
    }

    fn precedes(&self, other: &Self) -> (r: bool) {
        if self.family_match != other.family_match {
            return self.family_match;
        }
        match (self.load, other.load) {
            (Some(Measure::Number(left)), Some(Measure::Number(right))) => left < right,
            (Some(_), None) => true,
            _ => false,
        }
    }
}

/// What records are ranked by where places are known.
#[derive(Debug, Clone, Copy, PartialEq, Eq, Structural)]
pub struct GeoSortKey {
    pub same_country: bool,
    pub same_asn: bool,
    pub family_match: bool,
    pub same_city: bool,
    pub load: Option<Measure>,
    pub geo_distance: Option<Measure>,
}

impl RankKey for GeoSortKey {
    /// Country, autonomous system, address family, city, lower load and shorter
    /// distance count in this order. A load or distance that is not known on both
    /// sides does not count.
    open spec fn before(self, other: Self) -> bool {
        if self.same_country != other.same_country {
            self.same_country
        } else if self.same_asn != other.same_asn {
            self.same_asn
        } else if self.family_match != other.family_match {
            self.family_match
        } else if self.same_city != other.same_city {
            self.same_city
        } else if optional_less(self.load, other.load) || optional_less(other.load, self.load) {
            optional_less(self.load, other.load)
        } else {
            optional_less(self.geo_distance, other.geo_distance)
        }
    }

    fn precedes(&self, other: &Self) -> (r: bool) {
        matches!(compare_geo_sort_keys(*self, *other), Ordering::Less)
    }
}

/// Orders two keys by the first layer on which they differ.
pub fn compare_geo_sort_keys(left: GeoSortKey, right: GeoSortKey) -> (r: Ordering)
    ensures
        r is Less <==> left.before(right),
        r is Greater <==> right.before(left),
{
    if left.same_country != right.same_country {
        return if left.same_country {
            Ordering::Less
        } else {
            Ordering::Greater
        };
    }
    if left.same_asn != right.same_asn {
        return if left.same_asn {
            Ordering::Less
        } else {
            Ordering::Greater
        };
    }
    if left.family_match != right.family_match {
        return if left.family_match {
            Ordering::Less
        } else {
            Ordering::Greater
        };
    }
    if left.same_city != right.same_city {
        return if left.same_city {
            Ordering::Less
        } else {
            Ordering::Greater
        };
    }
    match compare_optional_partial(left.load, right.load) {
        Ordering::Less => Ordering::Less,
        Ordering::Greater => Ordering::Greater,
        Ordering::Equal => compare_optional_partial(left.geo_distance, right.geo_distance),
    }
}

/// Both are known and the same.
pub open spec fn both_same<A>(a: Option<A>, b: Option<A>) -> bool {
    a is Some && a == b
}

/// The key of an endpoint, from what is known of the client and of the endpoint.
pub open spec fn geo_sort_key(
    source_ip: Option<IpAddress>,
    source: Option<GeoTraitsModel>,
    endpoint: SocketAddress,
    load: Option<Measure>,
    target: GeoTraitsModel,
    geo: GeoResolver,
    distance_km: Option<u64>,
) -> GeoSortKey {
    let from = match source {
        Some(source) => source,
        None => GeoTraitsModel::unknown(),
    };
    let same_country = both_same(from.country, target.country);
    GeoSortKey {
        same_country,
        same_asn: both_same(from.asn, target.asn),
        family_match: family_matches(source_ip, endpoint),
        same_city: same_country && both_same(from.city, target.city),
        load,
        geo_distance: match (from.point, target.point, distance_km) {
            (Some(left), Some(right), Some(bits)) => if geo.distance_counts(left, right) {
                Some(Measure::of_double(bits))
            } else {
                None
            },
            _ => None,
        },
    }
}

fn both_texts(a: &Option<String>, b: &Option<String>) -> (r: bool)
    ensures
        r == both_same(crate::server::geo::text_view(*a), crate::server::geo::text_view(*b)),
{
    match (a, b) {
        (Some(a), Some(b)) => text_eq(a.as_str(), b.as_str()),
        _ => false,
    }
}

/// The key of an endpoint, from what is known of the client and of the endpoint.
/// `distance_km` is the distance between the two, where both places are known.
pub fn build_geo_sort_key(
    source_ip: Option<IpAddress>,
    source_traits: Option<&GeoTraits>,
    endpoint: SocketAddress,
    load: Option<Measure>,
    endpoint_traits: &GeoTraits,
    geo: &GeoResolver,
    distance_km: Option<u64>,
) -> (r: GeoSortKey)
    ensures
        r == geo_sort_key(
            source_ip,
            match source_traits {
                Some(traits) => Some(traits@),
                None => None,
            },
            endpoint,
            load,
            endpoint_traits@,
            *geo,
            distance_km,
        ),
{
    let family_match = matches_family(source_ip, endpoint);
    match source_traits {
        Some(source) => {
            let same_country = both_texts(&source.country, &endpoint_traits.country);
            let same_asn = match (source.asn, endpoint_traits.asn) {
                (Some(a), Some(b)) => a == b,
                _ => false,
            };
            let same_city = same_country && both_texts(&source.city, &endpoint_traits.city);
            let geo_distance = match (source.point, endpoint_traits.point) {
                (Some(left), Some(right)) => geo.geo_distance_km(&left, &right, distance_km),
                _ => None,
            };
            GeoSortKey { same_country, same_asn, family_match, same_city, load, geo_distance }
        },
        None => GeoSortKey {
            same_country: false,
            same_asn: false,
            family_match,
            same_city: false,
            load,
            geo_distance: None,
        },
    }
}

/// What is known of the client.
pub open spec fn source_traits(
    source_ip: Option<IpAddress>,
    geo: Option<GeoResolver>,
) -> Option<GeoTraitsModel> {
    match (source_ip, geo) {
        (Some(ip), Some(geo)) => Some(geo.traits_of(ip)),
        _ => None,
    }
}

/// What is known of the client.
pub fn request_source_geo_traits(
    source_ip: Option<IpAddress>,
    geo: Option<&GeoResolver>,
) -> (r: Option<GeoTraits>)
    ensures
        (match r {
            Some(traits) => Some(traits@),
            None => None,
        }) == source_traits(
            source_ip,
            match geo {
                Some(geo) => Some(*geo),
                None => None,
            },
        ),
{
    match (source_ip, geo) {
        (Some(ip), Some(geo)) => Some(geo.lookup_traits(ip)),
        _ => None,
    }
}

/// The key of a record where nothing is known of places.
pub open spec fn family_key(record: LookupModel, source_ip: Option<IpAddress>) -> Option<
    FamilySortKey,
> {
    match ranked_endpoint(record) {
        Some(endpoint) => Some(
            FamilySortKey {
                family_match: family_matches(source_ip, endpoint.addr),
                load: endpoint.measured_load(),
            },
        ),
        None => None,
    }
}

/// The key of a record where places are known.
pub open spec fn geo_key(
    record: LookupModel,
    source_ip: Option<IpAddress>,
    geo: GeoResolver,
) -> Option<GeoSortKey> {
    match ranked_endpoint(record) {
        Some(endpoint) => Some(
            geo_sort_key(
                source_ip,
                source_traits(source_ip, Some(geo)),
                endpoint.addr,
                endpoint.measured_load(),
                geo.traits_of(endpoint.addr.spec_ip()),
                geo,
                geo.distance_of(endpoint.addr.spec_ip()),
            ),
        ),
        None => None,
    }
}

pub open spec fn family_keys(
    records: Seq<LookupModel>,
    source_ip: Option<IpAddress>,
) -> Seq<Option<FamilySortKey>> {
    records.map_values(|record: LookupModel| family_key(record, source_ip))
}

pub open spec fn geo_keys(
    records: Seq<LookupModel>,
    source_ip: Option<IpAddress>,
    geo: GeoResolver,
) -> Seq<Option<GeoSortKey>> {
    records.map_values(|record: LookupModel| geo_key(record, source_ip, geo))
}

/// The records in the order in which a client is to try them.
pub open spec fn ranked_records(
    records: Seq<LookupModel>,
    source_ip: Option<IpAddress>,
    geo: Option<GeoResolver>,
) -> Seq<LookupModel> {
    let n = records.len() as int;
    match geo {
        Some(geo) => arranged(records, rank_order(geo_keys(records, source_ip, geo), n)),
        None => arranged(records, rank_order(family_keys(records, source_ip), n)),
    }
}

fn arrange(records: &Vec<LookupRecord>, order: &Vec<usize>) -> (r: Vec<LookupRecord>)
    requires
        is_permutation(as_order(order@), records@.len() as int),
    ensures
        views(r@) == arranged(views(records@), as_order(order@)),
{
    let mut out: Vec<LookupRecord> = Vec::new();
    let mut i: usize = 0;
    while i < order.len()
        invariant
            i <= order@.len(),
            is_permutation(as_order(order@), records@.len() as int),
            out@.len() == i,
            forall|j: int|
                0 <= j < i ==> (#[trigger] out@[j])@ == arranged(
                    views(records@),
                    as_order(order@),
                )[j],
        decreases order@.len() - i,
    {
        assert(as_order(order@)[i as int] == order@[i as int]);
        out.push(records[order[i]].clone());
        i = i + 1;
    }
    assert(views(out@) =~= arranged(views(records@), as_order(order@)));
    out
}

/// Ranks records where nothing is known of places.
pub fn sort_lookup_records(records: Vec<LookupRecord>, source_ip: Option<IpAddress>) -> (r: Vec<
    LookupRecord,
>)
    ensures
        views(r@) == ranked_records(views(records@), source_ip, None),
{
    let mut keys: Vec<Option<FamilySortKey>> = Vec::new();
    let mut i: usize = 0;
    while i < records.len()
        invariant
            i <= records@.len(),
            keys@.len() == i,
            forall|j: int|
                0 <= j < i ==> #[trigger] keys@[j] == family_keys(views(records@), source_ip)[j],
        decreases records@.len() - i,
    {
        let key = match lookup_endpoint(&records[i]) {
            Some(endpoint) => Some(
                FamilySortKey {
                    family_match: matches_family(source_ip, endpoint.addr),
                    load: endpoint.load_measure(),
                },
            ),
            None => None,
        };
        assert(views(records@)[i as int] == records@[i as int]@);
        keys.push(key);
        i = i + 1;
    }
    assert(keys@ =~= family_keys(views(records@), source_ip));
    let order = rank(&keys);
    arrange(&records, &order)
}

/// Ranks records where places are known.
pub fn sort_lookup_records_with_geo(
    records: Vec<LookupRecord>,
    source_ip: Option<IpAddress>,
    geo: &GeoResolver,
) -> (r: Vec<LookupRecord>)
    ensures
        views(r@) == ranked_records(views(records@), source_ip, Some(*geo)),
{
    let source = request_source_geo_traits(source_ip, Some(geo));
    let mut keys: Vec<Option<GeoSortKey>> = Vec::new();
    let mut i: usize = 0;
    while i < records.len()
        invariant
            i <= records@.len(),
            keys@.len() == i,
            (match source {
                Some(traits) => Some(traits@),
                None => None,
            }) == source_traits(source_ip, Some(*geo)),
            forall|j: int|
                0 <= j < i ==> #[trigger] keys@[j] == geo_keys(views(records@), source_ip, *geo)[j],
        decreases records@.len() - i,
    {
        let key = match lookup_endpoint(&records[i]) {
            Some(endpoint) => {
                let ip = endpoint.addr.ip();
                let traits = geo.lookup_traits(ip);
                Some(
                    build_geo_sort_key(
                        source_ip,
                        source.as_ref(),
                        endpoint.addr,
                        endpoint.load_measure(),
                        &traits,
                        geo,
                        geo.lookup_distance(ip),
                    ),
                )
            },
            None => None,
        };
        assert(views(records@)[i as int] == records@[i as int]@);
        keys.push(key);
        i = i + 1;
    }
    assert(keys@ =~= geo_keys(views(records@), source_ip, *geo));
    let order = rank(&keys);
    arrange(&records, &order)
}

/// A load, where there is one, is a number.
pub open spec fn loads_are_numbers(records: Seq<LookupModel>) -> bool {
    forall|i: int|
        0 <= i < records.len() ==> match ranked_endpoint(#[trigger] records[i]) {
            Some(endpoint) => endpoint.measured_load() != Some(Measure::NotANumber),
            None => true,
        }
}

/// Where every load is a number, the records without known places come in order: those
/// of the family of the client first, then by load, then as they were.
pub proof fn law_records_are_ranked_by_family_and_load(
    records: Seq<LookupModel>,
    source_ip: Option<IpAddress>,
)
    requires
        loads_are_numbers(records),
    ensures
        ranked(
            family_keys(records, source_ip),
            rank_order(family_keys(records, source_ip), records.len() as int),
        ),
{
    let keys = family_keys(records, source_ip);
    assert forall|i: int| 0 <= i < keys.len() && (#[trigger] keys[i]) is Some implies keys[i]->0.load
        != Some(Measure::NotANumber) by {
        assert(keys[i] == family_key(records[i], source_ip));
    }
    assert(consistent(keys));
    law_rank_order_is_ranked(keys, records.len() as int);
}

/// Either all keys have a value that is a number, or none has a value.
pub open spec fn all_or_none(keys: Seq<Option<GeoSortKey>>, of: spec_fn(GeoSortKey) -> Option<
    Measure,
>) -> bool {
    (forall|i: int|
        0 <= i < keys.len() && (#[trigger] keys[i]) is Some ==> of(keys[i]->0) is Some && of(
            keys[i]->0,
        )->0 is Number) || (forall|i: int|
        0 <= i < keys.len() && (#[trigger] keys[i]) is Some ==> of(keys[i]->0) is None)
}

/// Where all loads are known, or none, and likewise all distances, the records with
/// known places come in the order of their layers, and else as they were.
pub proof fn law_records_are_ranked_by_place(
    records: Seq<LookupModel>,
    source_ip: Option<IpAddress>,
    geo: GeoResolver,
)
    requires
        all_or_none(geo_keys(records, source_ip, geo), |k: GeoSortKey| k.load),
        all_or_none(geo_keys(records, source_ip, geo), |k: GeoSortKey| k.geo_distance),
    ensures
        ranked(
            geo_keys(records, source_ip, geo),
            rank_order(geo_keys(records, source_ip, geo), records.len() as int),
        ),
{
    let keys = geo_keys(records, source_ip, geo);
    assert(consistent(keys));
    law_rank_order_is_ranked(keys, records.len() as int);
}

/// Some answer announces the endpoint.
pub open spec fn answers_announce(answers: Seq<AnswerModel>, key: EndpointKey) -> bool {
    exists|i: int|
        0 <= i < answers.len() && (#[trigger] answers[i]).endpoint is Some
            && answers[i].endpoint->0.key() == key
}

/// Some unsigned record announces the endpoint.
pub open spec fn announces(records: Seq<LookupModel>, key: EndpointKey) -> bool {
    exists|i: int|
        0 <= i < records.len() && is_split(#[trigger] records[i]) && answers_announce(
            records[i].answers->0,
            key,
        )
}

proof fn lemma_seen_in_answers(
    collected: Collected,
    answers: Seq<AnswerModel>,
    cert: Seq<u8>,
    key: EndpointKey,
)
    ensures
        collect_endpoints(collected, answers, cert).seen.contains(key) <==> (
        collected.seen.contains(key) || answers_announce(answers, key)),
    decreases answers.len(),
{
    if answers.len() > 0 {
        let front = answers.drop_last();
        lemma_seen_in_answers(collected, front, cert, key);
        if answers_announce(front, key) {
            let i = choose|i: int|
                0 <= i < front.len() && (#[trigger] front[i]).endpoint is Some
                    && front[i].endpoint->0.key() == key;
            assert(answers[i].endpoint is Some);
        }
        if answers_announce(answers, key) {
            let i = choose|i: int|
                0 <= i < answers.len() && (#[trigger] answers[i]).endpoint is Some
                    && answers[i].endpoint->0.key() == key;
            if i < front.len() {
                assert(front[i].endpoint is Some);
            }
        }
        if let Some(endpoint) = answers.last().endpoint {
            assert(answers[answers.len() - 1].endpoint is Some);
        }
    }
}

proof fn lemma_seen(records: Seq<LookupModel>, key: EndpointKey)
    ensures
        collect_records(records).seen.contains(key) <==> announces(records, key),
    decreases records.len(),
{
    if records.len() > 0 {
        let front = records.drop_last();
        let last = records.last();
        lemma_seen(front, key);
        if is_split(last) {
            lemma_seen_in_answers(collect_records(front), last.answers->0, last.cert, key);
        }
        if announces(front, key) {
            let i = choose|i: int|
                0 <= i < front.len() && is_split(#[trigger] front[i]) && answers_announce(
                    front[i].answers->0,
                    key,
                );
            assert(is_split(records[i]));
        }
        if announces(records, key) {
            let i = choose|i: int|
                0 <= i < records.len() && is_split(#[trigger] records[i]) && answers_announce(
                    records[i].answers->0,
                    key,
                );
            if i < front.len() {
                assert(is_split(front[i]));
            }
        }
        if is_split(last) && answers_announce(last.answers->0, key) {
            assert(is_split(records[records.len() - 1]));
        }
    }
}

/// Normalizing loses no endpoint and adds none.
pub proof fn law_normalizing_keeps_the_endpoints(records: Seq<LookupModel>, key: EndpointKey)
    ensures
        announces(normalized(records), key) <==> announces(records, key),
{
    lemma_collect_twice(records);
    lemma_seen(normalized(records), key);
    lemma_seen(records, key);
}

proof fn lemma_collect_appends(
    collected: Collected,
    answers: Seq<AnswerModel>,
    cert: Seq<u8>,
)
    ensures
        collected.records.len() <= collect_endpoints(collected, answers, cert).records.len(),
        collect_endpoints(collected, answers, cert).records.take(collected.records.len() as int)
            == collected.records,
    decreases answers.len(),
{
    let n = collected.records.len() as int;
    if answers.len() > 0 {
        lemma_collect_appends(collected, answers.drop_last(), cert);
        let so_far = collect_endpoints(collected, answers.drop_last(), cert);
        let after = collect_endpoints(collected, answers, cert);
        assert(after.records.take(n) =~= so_far.records.take(n));
    } else {
        assert(collected.records.take(n) =~= collected.records);
    }
}

/// More records do not change what the first ones are normalized to.
pub proof fn law_normalizing_keeps_what_comes_first(
    records: Seq<LookupModel>,
    more: Seq<LookupModel>,
)
    ensures
        normalized(records).len() <= normalized(records + more).len(),
        normalized(records + more).take(normalized(records).len() as int) == normalized(records),
    decreases more.len(),
{
    let n = normalized(records).len() as int;
    if more.len() > 0 {
        let front = more.drop_last();
        law_normalizing_keeps_what_comes_first(records, front);
        let all = records + more;
        assert(all.drop_last() =~= records + front);
        assert(all.last() == more.last());
        let before = collect_records(records + front);
        let after = collect_records(all);
        if is_split(more.last()) {
            lemma_collect_appends(before, more.last().answers->0, more.last().cert);
            let m = before.records.len() as int;
            assert(after.records.take(n) =~= after.records.take(m).take(n));
        } else {
            assert(after.records.take(n) =~= before.records.take(n));
        }
    } else {
        assert(records + more =~= records);
        assert(normalized(records).take(n) =~= normalized(records));
    }
}

/// Records that are split as far as they can be.
spec fn is_normal(records: Seq<LookupModel>) -> bool {
    &&& forall|i: int|
        0 <= i < records.len() && is_split(#[trigger] records[i]) ==> records[i]
            == endpoint_record(records[i].answers->0[0], records[i].cert)
    &&& forall|i: int, j: int|
        0 <= i < records.len() && 0 <= j < records.len() && i != j && is_split(
            #[trigger] records[i],
        ) && is_split(#[trigger] records[j]) ==> records[i].answers->0[0].endpoint->0.key()
            != records[j].answers->0[0].endpoint->0.key()
}

proof fn lemma_split_into_single(
    collected: Collected,
    answers: Seq<AnswerModel>,
    cert: Seq<u8>,
)
    requires
        forall|i: int|
            0 <= i < collected.records.len() && is_split(#[trigger] collected.records[i])
                ==> collected.records[i] == endpoint_record(
                collected.records[i].answers->0[0],
                collected.records[i].cert,
            ),
    ensures
        ({
            let after = collect_endpoints(collected, answers, cert).records;
            forall|i: int|
                0 <= i < after.len() && is_split(#[trigger] after[i]) ==> after[i]
                    == endpoint_record(after[i].answers->0[0], after[i].cert)
        }),
    decreases answers.len(),
{
    if answers.len() > 0 {
        lemma_split_into_single(collected, answers.drop_last(), cert);
        let so_far = collect_endpoints(collected, answers.drop_last(), cert).records;
        let after = collect_endpoints(collected, answers, cert).records;
        assert(forall|i: int| 0 <= i < so_far.len() ==> after[i] == so_far[i]);
        if after.len() > so_far.len() {
            assert(after.last() == endpoint_record(answers.last(), cert));
            assert(after.last().answers->0[0] == answers.last());
        }
    }
}

proof fn lemma_single(records: Seq<LookupModel>)
    ensures
        ({
            let after = normalized(records);
            forall|i: int|
                0 <= i < after.len() && is_split(#[trigger] after[i]) ==> after[i]
                    == endpoint_record(after[i].answers->0[0], after[i].cert)
        }),
    decreases records.len(),
{
    if records.len() > 0 {
        lemma_single(records.drop_last());
        let before = collect_records(records.drop_last());
        let record = records.last();
        if is_split(record) {
            lemma_split_into_single(before, record.answers->0, record.cert);
        } else {
            let after = normalized(records);
            assert(forall|i: int|
                0 <= i < before.records.len() ==> after[i] == before.records[i]);
        }
    }
}

proof fn lemma_normal_stays(records: Seq<LookupModel>)
    requires
        is_normal(records),
    ensures
        normalized(records) == records,
    decreases records.len(),
{
    if records.len() > 0 {
        let front = records.drop_last();
        let n = front.len() as int;
        let last = records[n];
        assert forall|i: int| 0 <= i < n && is_split(#[trigger] front[i]) implies front[i]
            == endpoint_record(front[i].answers->0[0], front[i].cert) by {
            assert(records[i] == front[i]);
        }
        assert forall|i: int, j: int|
            0 <= i < n && 0 <= j < n && i != j && is_split(#[trigger] front[i]) && is_split(
                #[trigger] front[j],
            ) implies front[i].answers->0[0].endpoint->0.key()
            != front[j].answers->0[0].endpoint->0.key() by {
            assert(records[i] == front[i]);
            assert(records[j] == front[j]);
        }
        lemma_normal_stays(front);
        let before = collect_records(front);
        if is_split(last) {
            let answer = last.answers->0[0];
            let answers = last.answers->0;
            assert(answers =~= seq![answer]);
            assert(answer.endpoint is Some);
            let key = answer.endpoint->0.key();
            lemma_seen(front, key);
            if announces(front, key) {
                let i = choose|i: int|
                    0 <= i < front.len() && is_split(#[trigger] front[i]) && answers_announce(
                        front[i].answers->0,
                        key,
                    );
                assert(records[i] == front[i]);
                assert(front[i].answers->0 =~= seq![front[i].answers->0[0]]);
            }
            assert(answers.drop_last() =~= Seq::<AnswerModel>::empty());
            assert(collect_endpoints(before, answers.drop_last(), last.cert) == before);
        }
        assert(normalized(records) =~= records);
    }
}

/// Normalized records stay so in whatever order they are ranked.
pub proof fn law_ranking_keeps_records_normalized(
    records: Seq<LookupModel>,
    source_ip: Option<IpAddress>,
    geo: Option<GeoResolver>,
)
    ensures
        normalized(ranked_records(normalized(records), source_ip, geo)) == ranked_records(
            normalized(records),
            source_ip,
            geo,
        ),
{
    let normal = normalized(records);
    let n = normal.len() as int;
    let order = match geo {
        Some(geo) => rank_order(geo_keys(normal, source_ip, geo), n),
        None => rank_order(family_keys(normal, source_ip), n),
    };
    match geo {
        Some(geo) => law_rank_order_is_permutation(geo_keys(normal, source_ip, geo), n),
        None => law_rank_order_is_permutation(family_keys(normal, source_ip), n),
    }
    law_normalized_endpoints_are_unique(records);
    lemma_single(records);
    let after = arranged(normal, order);
    assert forall|i: int| 0 <= i < after.len() implies #[trigger] after[i] == normal[order[i]] by {}
    assert forall|i: int, j: int|
        0 <= i < after.len() && 0 <= j < after.len() && i != j && is_split(#[trigger] after[i])
            && is_split(#[trigger] after[j]) implies after[i].answers->0[0].endpoint->0.key()
        != after[j].answers->0[0].endpoint->0.key() by {
        let a = order[i];
        let b = order[j];
        assert(a != b);
        assert(is_split(normal[a]) && is_split(normal[b]));
    }
    assert(is_normal(after));
    lemma_normal_stays(after);
}

proof fn lemma_ranking_keeps(
    records: Seq<LookupModel>,
    source_ip: Option<IpAddress>,
    geo: Option<GeoResolver>,
    i: int,
) -> (k: int)
    requires
        0 <= i < records.len(),
    ensures
        0 <= k < ranked_records(records, source_ip, geo).len(),
        ranked_records(records, source_ip, geo)[k] == records[i],
{
    let n = records.len() as int;
    match geo {
        Some(geo) => {
            let keys = geo_keys(records, source_ip, geo);
            law_rank_order_is_permutation(keys, n);
            lemma_rank_order_reaches(keys, n, i)
        },
        None => {
            let keys = family_keys(records, source_ip);
            law_rank_order_is_permutation(keys, n);
            lemma_rank_order_reaches(keys, n, i)
        },
    }
}

/// Ranking keeps every record, and with it every endpoint.
pub proof fn law_ranking_keeps_the_records(
    records: Seq<LookupModel>,
    source_ip: Option<IpAddress>,
    geo: Option<GeoResolver>,
)
    ensures
        ranked_records(records, source_ip, geo).len() == records.len(),
        forall|i: int|
            0 <= i < records.len() ==> ranked_records(records, source_ip, geo).contains(
                #[trigger] records[i],
            ),
        forall|key: EndpointKey| #[trigger]
            announces(records, key) <==> announces(ranked_records(records, source_ip, geo), key),
{
    let after = ranked_records(records, source_ip, geo);
    let n = records.len() as int;
    match geo {
        Some(geo) => law_rank_order_is_permutation(geo_keys(records, source_ip, geo), n),
        None => law_rank_order_is_permutation(family_keys(records, source_ip), n),
    }
    assert forall|i: int| 0 <= i < n implies after.contains(#[trigger] records[i]) by {
        let k = lemma_ranking_keeps(records, source_ip, geo, i);
        assert(after[k] == records[i]);
    }
    assert forall|key: EndpointKey| #[trigger] announces(records, key) <==> announces(
        after,
        key,
    ) by {
        if announces(records, key) {
            let i = choose|i: int|
                0 <= i < records.len() && is_split(#[trigger] records[i]) && answers_announce(
                    records[i].answers->0,
                    key,
                );
            let k = lemma_ranking_keeps(records, source_ip, geo, i);
            assert(is_split(after[k]));
        }
        if announces(after, key) {
            let k = choose|k: int|
                0 <= k < after.len() && is_split(#[trigger] after[k]) && answers_announce(
                    after[k].answers->0,
                    key,
                );
            let order = match geo {
                Some(geo) => rank_order(geo_keys(records, source_ip, geo), n),
                None => rank_order(family_keys(records, source_ip), n),
            };
            assert(after[k] == records[order[k]]);
            assert(is_split(records[order[k]]));
        }
    }
}

pub proof fn lemma_announced_by_either(
    records: Seq<LookupModel>,
    more: Seq<LookupModel>,
    key: EndpointKey,
)
    ensures
        announces(records + more, key) <==> announces(records, key) || announces(more, key),
{
    let all = records + more;
    let n = records.len() as int;
    if announces(records, key) {
        let i = choose|i: int|
            0 <= i < records.len() && is_split(#[trigger] records[i]) && answers_announce(
                records[i].answers->0,
                key,
            );
        assert(is_split(all[i]));
    }
    if announces(more, key) {
        let i = choose|i: int|
            0 <= i < more.len() && is_split(#[trigger] more[i]) && answers_announce(
                more[i].answers->0,
                key,
            );
        assert(is_split(all[n + i]));
    }
    if announces(all, key) {
        let i = choose|i: int|
            0 <= i < all.len() && is_split(#[trigger] all[i]) && answers_announce(
                all[i].answers->0,
                key,
            );
        if i < n {
            assert(is_split(records[i]));
        } else {
            assert(is_split(more[i - n]));
        }
    }
}

proof fn lemma_whole_records_stay(records: Seq<LookupModel>, i: int)
    requires
        0 <= i < records.len(),
        !is_split(records[i]),
    ensures
        normalized(records).contains(records[i]),
{
    let front = records.take(i + 1);
    assert(front.drop_last() =~= records.take(i));
    assert(front.last() == records[i]);
    let n = normalized(front).len() as int;
    assert(normalized(front)[n - 1] == records[i]);
    assert(records =~= front + records.skip(i + 1));
    law_normalizing_keeps_what_comes_first(front, records.skip(i + 1));
    assert(normalized(records).take(n)[n - 1] == records[i]);
    assert(normalized(records)[n - 1] == records[i]);
}

/// Normalizing keeps the records that are not split as they are.
pub proof fn law_whole_records_are_kept(records: Seq<LookupModel>)
    ensures
        forall|i: int|
            0 <= i < records.len() && !is_split(#[trigger] records[i]) ==> normalized(
                records,
            ).contains(records[i]),
{
    assert forall|i: int| 0 <= i < records.len() && !is_split(#[trigger] records[i]) implies
        normalized(records).contains(records[i]) by {
        lemma_whole_records_stay(records, i);
    }
}

/// The endpoint is the first one that the record announces.
pub open spec fn first_announced(record: LookupModel, endpoint: Endpoint) -> bool {
    record.answers is Some && exists|k: int|
        0 <= k < record.answers->0.len() && (#[trigger] record.answers->0[k]).endpoint == Some(
            endpoint,
        ) && forall|j: int| 0 <= j < k ==> (#[trigger] record.answers->0[j]).endpoint is None
}

/// The record announces no endpoint.
pub open spec fn announces_nothing(record: LookupModel) -> bool {
    record.answers is Some ==> forall|j: int|
        0 <= j < record.answers->0.len() ==> (#[trigger] record.answers->0[j]).endpoint is None
}

proof fn lemma_first_endpoint_at(answers: Seq<AnswerModel>, k: int)
    requires
        0 <= k <= answers.len(),
        forall|j: int| 0 <= j < k ==> (#[trigger] answers[j]).endpoint is None,
        k < answers.len() ==> answers[k].endpoint is Some,
    ensures
        first_endpoint(answers) == (if k < answers.len() {
            answers[k].endpoint
        } else {
            None
        }),
    decreases k,
{
    if k > 0 {
        assert(answers[0].endpoint is None);
        let rest = answers.skip(1);
        assert forall|j: int| 0 <= j < k - 1 implies (#[trigger] rest[j]).endpoint is None by {
            assert(rest[j] == answers[j + 1]);
        }
        lemma_first_endpoint_at(rest, k - 1);
    }
}

proof fn lemma_first_announced(record: LookupModel, endpoint: Endpoint)
    ensures
        first_announced(record, endpoint) ==> ranked_endpoint(record) == Some(endpoint),
        announces_nothing(record) ==> ranked_endpoint(record) is None,
{
    if first_announced(record, endpoint) {
        let k = choose|k: int|
            0 <= k < record.answers->0.len() && (#[trigger] record.answers->0[k]).endpoint == Some(
                endpoint,
            ) && forall|j: int| 0 <= j < k ==> (#[trigger] record.answers->0[j]).endpoint is None;
        lemma_first_endpoint_at(record.answers->0, k);
    }
    if announces_nothing(record) && record.answers is Some {
        lemma_first_endpoint_at(record.answers->0, record.answers->0.len() as int);
    }
}

/// An endpoint of the address family of the client stands before one of the other family,
/// whatever their loads.
pub proof fn law_endpoints_of_the_family_of_the_client_come_first(
    records: Seq<LookupModel>,
    source_ip: IpAddress,
    i: int,
    j: int,
    first: Endpoint,
    second: Endpoint,
)
    requires
        0 <= i < ranked_records(records, Some(source_ip), None).len(),
        0 <= j < ranked_records(records, Some(source_ip), None).len(),
        first_announced(ranked_records(records, Some(source_ip), None)[i], first),
        first_announced(ranked_records(records, Some(source_ip), None)[j], second),
        (first.addr is V4) <==> (source_ip is V4),
        (second.addr is V4) <==> (source_ip is V6),
    ensures
        i < j,
{
    let keys = family_keys(records, Some(source_ip));
    let n = records.len() as int;
    let class = |a: int|
        match keys[a] {
            Some(key) => if key.family_match {
                0int
            } else {
                1int
            },
            None => 2int,
        };
    law_rank_order_is_permutation(keys, n);
    lemma_rank_order_by_class(keys, class, n);
    let order = rank_order(keys, n);
    lemma_first_announced(records[order[i]], first);
    lemma_first_announced(records[order[j]], second);
    assert(class(order[i]) == 0);
    assert(class(order[j]) == 1);
}

/// A record that announces an endpoint stands before one that announces none.
pub proof fn law_records_without_endpoints_come_last(
    records: Seq<LookupModel>,
    source_ip: Option<IpAddress>,
    geo: Option<GeoResolver>,
    i: int,
    j: int,
    endpoint: Endpoint,
)
    requires
        0 <= i < ranked_records(records, source_ip, geo).len(),
        0 <= j < ranked_records(records, source_ip, geo).len(),
        first_announced(ranked_records(records, source_ip, geo)[i], endpoint),
        announces_nothing(ranked_records(records, source_ip, geo)[j]),
    ensures
        i < j,
{
    let n = records.len() as int;
    match geo {
        Some(geo) => {
            let keys = geo_keys(records, source_ip, geo);
            let class = |a: int|
                if keys[a] is Some {
                    0int
                } else {
                    1int
                };
            law_rank_order_is_permutation(keys, n);
            lemma_rank_order_by_class(keys, class, n);
            let order = rank_order(keys, n);
            lemma_first_announced(records[order[i]], endpoint);
            lemma_first_announced(records[order[j]], endpoint);
            assert(class(order[i]) == 0);
            assert(class(order[j]) == 1);
        },
        None => {
            let keys = family_keys(records, source_ip);
            let class = |a: int|
                if keys[a] is Some {
                    0int
                } else {
                    1int
                };
            law_rank_order_is_permutation(keys, n);
            lemma_rank_order_by_class(keys, class, n);
            let order = rank_order(keys, n);
            lemma_first_announced(records[order[i]], endpoint);
            lemma_first_announced(records[order[j]], endpoint);
            assert(class(order[i]) == 0);
            assert(class(order[j]) == 1);
        },
    }
}

/// Where places are known, an endpoint stands before another one if it is in the country of
/// the client and the other one is not. Next the autonomous system counts in the same way,
/// then the address family, then the city in that country.
pub proof fn law_endpoints_near_the_client_come_first(
    records: Seq<LookupModel>,
    source_ip: IpAddress,
    geo: GeoResolver,
    i: int,
    j: int,
    first: Endpoint,
    second: Endpoint,
)
    requires
        0 <= i < ranked_records(records, Some(source_ip), Some(geo)).len(),
        0 <= j < ranked_records(records, Some(source_ip), Some(geo)).len(),
        first_announced(ranked_records(records, Some(source_ip), Some(geo))[i], first),
        first_announced(ranked_records(records, Some(source_ip), Some(geo))[j], second),
    ensures
        ({
            let here = geo.traits_of(source_ip);
            let one = geo.traits_of(first.addr.spec_ip());
            let two = geo.traits_of(second.addr.spec_ip());
            let country_one = here.country is Some && one.country == here.country;
            let country_two = here.country is Some && two.country == here.country;
            let asn_one = here.asn is Some && one.asn == here.asn;
            let asn_two = here.asn is Some && two.asn == here.asn;
            let family_one = (first.addr is V4) == (source_ip is V4);
            let family_two = (second.addr is V4) == (source_ip is V4);
            let city_one = country_one && here.city is Some && one.city == here.city;
            let city_two = country_two && here.city is Some && two.city == here.city;
            &&& country_one && !country_two ==> i < j
            &&& country_one == country_two && asn_one && !asn_two ==> i < j
            &&& country_one == country_two && asn_one == asn_two && family_one && !family_two
                ==> i < j
            &&& country_one == country_two && asn_one == asn_two && family_one == family_two
                && city_one && !city_two ==> i < j
        }),
{
    let keys = geo_keys(records, Some(source_ip), geo);
    let n = records.len() as int;
    let class = |a: int|
        match keys[a] {
            Some(key) => (if key.same_country {
                0int
            } else {
                8int
            }) + (if key.same_asn {
                0int
            } else {
                4int
            }) + (if key.family_match {
                0int
            } else {
                2int
            }) + (if key.same_city {
                0int
            } else {
                1int
            }),
            None => 16int,
        };
    law_rank_order_is_permutation(keys, n);
    lemma_rank_order_by_class(keys, class, n);
    let order = rank_order(keys, n);
    lemma_first_announced(records[order[i]], first);
    lemma_first_announced(records[order[j]], second);
    assert(keys[order[i]] == geo_key(records[order[i]], Some(source_ip), geo));
    assert(keys[order[j]] == geo_key(records[order[j]], Some(source_ip), geo));
    if i > j {
        assert(class(order[j]) <= class(order[i]));
    }
    if i == j {
        assert(first == second);
    }
}

/// Every load that some records are ranked by is a number.
pub open spec fn numbered_loads(records: Seq<LookupModel>) -> bool {
    forall|k: int, endpoint: Endpoint|
        0 <= k < records.len() && #[trigger] first_announced(records[k], endpoint) ==> (
        endpoint.load matches Some(bits) ==> bits as int % 0x8000_0000 <= 0x7f80_0000)
}

proof fn lemma_ranked_endpoint_is_announced(record: LookupModel)
    ensures
        ranked_endpoint(record) matches Some(endpoint) ==> first_announced(record, endpoint),
{
    if record.answers is Some {
        lemma_first_endpoint_is_announced(record.answers->0);
    }
}

proof fn lemma_first_endpoint_is_announced(answers: Seq<AnswerModel>)
    ensures
        first_endpoint(answers) matches Some(endpoint) ==> exists|k: int|
            0 <= k < answers.len() && (#[trigger] answers[k]).endpoint == Some(endpoint)
                && forall|j: int| 0 <= j < k ==> (#[trigger] answers[j]).endpoint is None,
    decreases answers.len(),
{
    if answers.len() > 0 {
        if answers[0].endpoint is Some {
            assert(answers[0].endpoint == first_endpoint(answers));
        } else {
            let rest = answers.skip(1);
            lemma_first_endpoint_is_announced(rest);
            if let Some(endpoint) = first_endpoint(rest) {
                let k = choose|k: int|
                    0 <= k < rest.len() && (#[trigger] rest[k]).endpoint == Some(endpoint)
                        && forall|j: int|
                        0 <= j < k ==> (#[trigger] rest[j]).endpoint is None;
                assert(answers[k + 1].endpoint == Some(endpoint));
                assert forall|j: int| 0 <= j < k + 1 implies (
                #[trigger] answers[j]).endpoint is None by {
                    if j > 0 {
                        assert(rest[j - 1] == answers[j]);
                    }
                }
            }
        }
    }
}

/// Among endpoints of one family the lower load stands first, and any load before none.
pub proof fn law_lower_loads_come_first(
    records: Seq<LookupModel>,
    source_ip: Option<IpAddress>,
    i: int,
    j: int,
    first: Endpoint,
    second: Endpoint,
)
    requires
        numbered_loads(records),
        0 <= i < ranked_records(records, source_ip, None).len(),
        0 <= j < ranked_records(records, source_ip, None).len(),
        first_announced(ranked_records(records, source_ip, None)[i], first),
        first_announced(ranked_records(records, source_ip, None)[j], second),
        (first.addr is V4) == (second.addr is V4),
        match (first.load, second.load) {
            (Some(a), Some(b)) => Measure::of_single(a).less(Measure::of_single(b)),
            (Some(_), None) => true,
            _ => false,
        },
    ensures
        i < j,
{
    lemma_loads_are_numbers(records);
    law_records_are_ranked_by_family_and_load(records, source_ip);
    let keys = family_keys(records, source_ip);
    let n = records.len() as int;
    law_rank_order_is_permutation(keys, n);
    let order = rank_order(keys, n);
    lemma_first_announced(records[order[i]], first);
    lemma_first_announced(records[order[j]], second);
    assert(ranks_before(keys[order[i]], keys[order[j]]));
    if i > j {
        assert(!ranks_before(keys[order[i]], keys[order[j]]));
    }
    if i == j {
        assert(first == second);
    }
}

proof fn lemma_loads_are_numbers(records: Seq<LookupModel>)
    requires
        numbered_loads(records),
    ensures
        loads_are_numbers(records),
{
    assert forall|i: int| 0 <= i < records.len() implies match ranked_endpoint(
        #[trigger] records[i],
    ) {
        Some(endpoint) => endpoint.measured_load() != Some(Measure::NotANumber),
        None => true,
    } by {
        lemma_ranked_endpoint_is_announced(records[i]);
        if let Some(endpoint) = ranked_endpoint(records[i]) {
            assert(first_announced(records[i], endpoint));
        }
    }
}

/// The records that are ranked are the given ones in some order, and endpoints of one family
/// and with the same load, or without one, stay as they were.
pub proof fn law_equal_records_stay_as_they_were(
    records: Seq<LookupModel>,
    source_ip: Option<IpAddress>,
)
    requires
        numbered_loads(records),
    ensures
        exists|order: Seq<int>|
            {
                &&& #[trigger] is_permutation(order, records.len() as int)
                &&& ranked_records(records, source_ip, None).len() == records.len()
                &&& forall|i: int|
                    0 <= i < records.len() ==> #[trigger] ranked_records(
                        records,
                        source_ip,
                        None,
                    )[i] == records[order[i]]
                &&& forall|i: int, j: int, first: Endpoint, second: Endpoint|
                    0 <= i < j < records.len() && #[trigger] first_announced(
                        records[order[i]],
                        first,
                    ) && #[trigger] first_announced(records[order[j]], second) && (
                    first.addr is V4) == (second.addr is V4) && first.load == second.load
                        ==> order[i] < order[j]
            },
{
    lemma_loads_are_numbers(records);
    law_records_are_ranked_by_family_and_load(records, source_ip);
    let keys = family_keys(records, source_ip);
    let n = records.len() as int;
    law_rank_order_is_permutation(keys, n);
    let order = rank_order(keys, n);
    assert forall|i: int, j: int, first: Endpoint, second: Endpoint|
        0 <= i < j < n && #[trigger] first_announced(records[order[i]], first)
            && #[trigger] first_announced(records[order[j]], second) && (first.addr is V4) == (
        second.addr is V4) && first.load == second.load implies order[i] < order[j] by {
        lemma_first_announced(records[order[i]], first);
        lemma_first_announced(records[order[j]], second);
        assert(!ranks_before(keys[order[i]], keys[order[j]]));
    }
    assert(is_permutation(order, records.len() as int));
}

/// Where places are known, loads are all given as numbers and distances do not count, the
/// lower load stands first among endpoints that are equally near.
pub proof fn law_lower_loads_come_first_among_near_endpoints(
    records: Seq<LookupModel>,
    source_ip: IpAddress,
    geo: GeoResolver,
    i: int,
    j: int,
    first: Endpoint,
    second: Endpoint,
)
    requires
        numbered_loads(records),
        forall|k: int, endpoint: Endpoint|
            0 <= k < records.len() && #[trigger] first_announced(records[k], endpoint)
                ==> endpoint.load is Some,
        !geo.city_distance_routing,
        0 <= i < ranked_records(records, Some(source_ip), Some(geo)).len(),
        0 <= j < ranked_records(records, Some(source_ip), Some(geo)).len(),
        first_announced(ranked_records(records, Some(source_ip), Some(geo))[i], first),
        first_announced(ranked_records(records, Some(source_ip), Some(geo))[j], second),
        (first.addr is V4) == (second.addr is V4),
        geo.traits_of(first.addr.spec_ip()) == geo.traits_of(second.addr.spec_ip()),
        Measure::of_single(first.load->0).less(Measure::of_single(second.load->0)),
    ensures
        i < j,
{
    let keys = geo_keys(records, Some(source_ip), geo);
    let n = records.len() as int;
    lemma_geo_loads(records, source_ip, geo);
    law_records_are_ranked_by_place(records, Some(source_ip), geo);
    law_rank_order_is_permutation(keys, n);
    let order = rank_order(keys, n);
    lemma_first_announced(records[order[i]], first);
    lemma_first_announced(records[order[j]], second);
    assert(keys[order[i]] == geo_key(records[order[i]], Some(source_ip), geo));
    assert(keys[order[j]] == geo_key(records[order[j]], Some(source_ip), geo));
    assert(ranks_before(keys[order[i]], keys[order[j]]));
    if i > j {
        assert(!ranks_before(keys[order[i]], keys[order[j]]));
    }
    if i == j {
        assert(first == second);
    }
}

proof fn lemma_geo_loads(records: Seq<LookupModel>, source_ip: IpAddress, geo: GeoResolver)
    requires
        numbered_loads(records),
        forall|k: int, endpoint: Endpoint|
            0 <= k < records.len() && #[trigger] first_announced(records[k], endpoint)
                ==> endpoint.load is Some,
        !geo.city_distance_routing,
    ensures
        all_or_none(geo_keys(records, Some(source_ip), geo), |k: GeoSortKey| k.load),
        all_or_none(geo_keys(records, Some(source_ip), geo), |k: GeoSortKey| k.geo_distance),
{
    let keys = geo_keys(records, Some(source_ip), geo);
    let load = |k: GeoSortKey| k.load;
    let distance = |k: GeoSortKey| k.geo_distance;
    assert forall|i: int| 0 <= i < keys.len() && (#[trigger] keys[i]) is Some implies load(
        keys[i]->0,
    ) is Some && load(keys[i]->0)->0 is Number by {
        assert(keys[i] == geo_key(records[i], Some(source_ip), geo));
        lemma_ranked_endpoint_is_announced(records[i]);
        assert(first_announced(records[i], ranked_endpoint(records[i])->0));
    }
    assert forall|i: int| 0 <= i < keys.len() && (#[trigger] keys[i]) is Some implies distance(
        keys[i]->0,
    ) is None by {
        assert(keys[i] == geo_key(records[i], Some(source_ip), geo));
    }
}

/// Where all places are known well enough and no endpoint tells its load, the nearer endpoint
/// stands first among those of one family that are in the same country, city and autonomous
/// system.
pub proof fn law_nearer_endpoints_come_first(
    records: Seq<LookupModel>,
    source_ip: IpAddress,
    geo: GeoResolver,
    i: int,
    j: int,
    first: Endpoint,
    second: Endpoint,
)
    requires
        geo.city_distance_routing,
        geo.traits_of(source_ip).point matches Some(point) && point.accuracy_radius_km
            <= geo.max_accuracy_radius_km,
        forall|k: int, endpoint: Endpoint|
            0 <= k < records.len() && #[trigger] first_announced(records[k], endpoint) ==> {
                &&& endpoint.load is None
                &&& geo.traits_of(endpoint.addr.spec_ip()).point matches Some(point)
                    && point.accuracy_radius_km <= geo.max_accuracy_radius_km
                &&& geo.distance_of(endpoint.addr.spec_ip()) matches Some(bits) && bits as int
                    % 0x8000_0000_0000_0000 <= 0x7ff0_0000_0000_0000
            },
        0 <= i < ranked_records(records, Some(source_ip), Some(geo)).len(),
        0 <= j < ranked_records(records, Some(source_ip), Some(geo)).len(),
        first_announced(ranked_records(records, Some(source_ip), Some(geo))[i], first),
        first_announced(ranked_records(records, Some(source_ip), Some(geo))[j], second),
        (first.addr is V4) == (second.addr is V4),
        geo.traits_of(first.addr.spec_ip()).country == geo.traits_of(
            second.addr.spec_ip(),
        ).country,
        geo.traits_of(first.addr.spec_ip()).city == geo.traits_of(second.addr.spec_ip()).city,
        geo.traits_of(first.addr.spec_ip()).asn == geo.traits_of(second.addr.spec_ip()).asn,
        Measure::of_double(geo.distance_of(first.addr.spec_ip())->0).less(
            Measure::of_double(geo.distance_of(second.addr.spec_ip())->0),
        ),
    ensures
        i < j,
{
    let keys = geo_keys(records, Some(source_ip), geo);
    let n = records.len() as int;
    let load = |k: GeoSortKey| k.load;
    let distance = |k: GeoSortKey| k.geo_distance;
    assert forall|k: int| 0 <= k < keys.len() && (#[trigger] keys[k]) is Some implies load(
        keys[k]->0,
    ) is None && distance(keys[k]->0) is Some && distance(keys[k]->0)->0 is Number by {
        assert(keys[k] == geo_key(records[k], Some(source_ip), geo));
        lemma_ranked_endpoint_is_announced(records[k]);
        assert(first_announced(records[k], ranked_endpoint(records[k])->0));
    }
    law_records_are_ranked_by_place(records, Some(source_ip), geo);
    law_rank_order_is_permutation(keys, n);
    let order = rank_order(keys, n);
    lemma_first_announced(records[order[i]], first);
    lemma_first_announced(records[order[j]], second);
    assert(first_announced(records[order[i]], first));
    assert(first_announced(records[order[j]], second));
    assert(keys[order[i]] == geo_key(records[order[i]], Some(source_ip), geo));
    assert(keys[order[j]] == geo_key(records[order[j]], Some(source_ip), geo));
    assert(ranks_before(keys[order[i]], keys[order[j]]));
    if i > j {
        assert(!ranks_before(keys[order[i]], keys[order[j]]));
    }
    if i == j {
        assert(first == second);
    }
}

/// Distances change nothing where they do not count: routing by distance is off, or the place
/// of the client is not known well enough.
pub proof fn law_distances_count_only_between_known_places(
    records: Seq<LookupModel>,
    source_ip: IpAddress,
    one: GeoResolver,
    two: GeoResolver,
)
    requires
        forall|ip: IpAddress| #[trigger] one.traits_of(ip) == two.traits_of(ip),
        (!one.city_distance_routing && !two.city_distance_routing) || one.traits_of(
            source_ip,
        ).point is None || (one.traits_of(source_ip).point->0.accuracy_radius_km
            > one.max_accuracy_radius_km && two.traits_of(source_ip).point->0.accuracy_radius_km
            > two.max_accuracy_radius_km),
    ensures
        ranked_records(records, Some(source_ip), Some(one)) == ranked_records(
            records,
            Some(source_ip),
            Some(two),
        ),
{
    assert(geo_keys(records, Some(source_ip), one) =~= geo_keys(records, Some(source_ip), two));
}

/// Nothing that is known of places counts for a client whose address is not known.
pub proof fn law_unknown_clients_have_no_place(
    records: Seq<LookupModel>,
    one: GeoResolver,
    two: GeoResolver,
)
    ensures
        ranked_records(records, None, Some(one)) == ranked_records(records, None, Some(two)),
{
    assert(geo_keys(records, None, one) =~= geo_keys(records, None, two));
}

/// Nobody signed the record.
pub open spec fn nobody_signed(record: LookupModel) -> bool {
    record.signature_fields.content_digest.len() == 0
        && record.signature_fields.signature_input.len() == 0
        && record.signature_fields.signature.len() == 0
}

/// The record is made of one answer of another one, with its certificate.
pub open spec fn is_part_of(part: LookupModel, whole: LookupModel) -> bool {
    &&& nobody_signed(part)
    &&& part.dns is None
    &&& part.cert == whole.cert
    &&& part.answers matches Some(answers) && answers.len() == 1 && answers[0].endpoint is Some
        && whole.answers is Some && whole.answers->0.contains(answers[0])
}

proof fn lemma_unsigned(record: LookupModel)
    ensures
        nobody_signed(record) <==> record.signature_fields == SignatureFieldsModel::unsigned(),
{
    if nobody_signed(record) {
        assert(record.signature_fields.content_digest =~= Seq::<u8>::empty());
        assert(record.signature_fields.signature_input =~= Seq::<u8>::empty());
        assert(record.signature_fields.signature =~= Seq::<u8>::empty());
    }
}

proof fn lemma_parts(
    collected: Collected,
    answers: Seq<AnswerModel>,
    whole: LookupModel,
    i: int,
)
    requires
        whole.answers is Some,
        forall|k: int| 0 <= k < answers.len() ==> whole.answers->0.contains(#[trigger] answers[k]),
        collected.records.len() <= i < collect_endpoints(
            collected,
            answers,
            whole.cert,
        ).records.len(),
    ensures
        is_part_of(collect_endpoints(collected, answers, whole.cert).records[i], whole),
    decreases answers.len(),
{
    if answers.len() > 0 {
        let front = answers.drop_last();
        let so_far = collect_endpoints(collected, front, whole.cert);
        if i < so_far.records.len() {
            assert forall|k: int| 0 <= k < front.len() implies whole.answers->0.contains(
                #[trigger] front[k],
            ) by {
                assert(front[k] == answers[k]);
            }
            lemma_parts(collected, front, whole, i);
        } else {
            let part = endpoint_record(answers.last(), whole.cert);
            assert(collect_endpoints(collected, answers, whole.cert).records[i] == part);
            assert(whole.answers->0.contains(answers[answers.len() - 1]));
            assert(part.answers->0[0] == answers.last());
        }
    }
}

/// Every record of a normalized answer is a given one, or one endpoint of an unsigned one with
/// the certificate of that record.
pub proof fn law_normalized_records_come_from_the_given_ones(records: Seq<LookupModel>, i: int)
    requires
        0 <= i < normalized(records).len(),
    ensures
        records.contains(normalized(records)[i]) || exists|k: int|
            0 <= k < records.len() && nobody_signed(#[trigger] records[k]) && is_part_of(
                normalized(records)[i],
                records[k],
            ),
    decreases records.len(),
{
    if records.len() > 0 {
        let front = records.drop_last();
        let n = front.len() as int;
        let last = records[n];
        let before = collect_records(front);
        if i < before.records.len() {
            if is_split(last) {
                lemma_collect_appends(before, last.answers->0, last.cert);
                assert(normalized(records).take(before.records.len() as int)[i]
                    == before.records[i]);
            }
            assert(normalized(records)[i] == before.records[i]);
            law_normalized_records_come_from_the_given_ones(front, i);
            if front.contains(normalized(records)[i]) {
                let k = front.index_of(normalized(records)[i]);
                assert(records[k] == normalized(records)[i]);
            } else {
                let k = choose|k: int|
                    0 <= k < front.len() && nobody_signed(#[trigger] front[k]) && is_part_of(
                        normalized(records)[i],
                        front[k],
                    );
                assert(nobody_signed(records[k]));
            }
        } else if is_split(last) {
            lemma_unsigned(last);
            lemma_parts(before, last.answers->0, last, i);
            assert(nobody_signed(records[n]));
        } else {
            assert(normalized(records)[i] == records[n]);
        }
    }
}

/// Signed records, and those without an endpoint, are answered as they are.
pub proof fn law_signed_records_stay_whole(records: Seq<LookupModel>, k: int)
    requires
        0 <= k < records.len(),
        !nobody_signed(records[k]) || announces_nothing(records[k]),
    ensures
        normalized(records).contains(records[k]),
{
    lemma_unsigned(records[k]);
    if is_split(records[k]) {
        let answers = records[k].answers->0;
        let j = choose|j: int| 0 <= j < answers.len() && (#[trigger] answers[j]).endpoint is Some;
        assert(false);
    }
    law_whole_records_are_kept(records);
}

/// Every endpoint of an unsigned record has an unsigned record of its own in the answer, and
/// only one.
pub proof fn law_unsigned_endpoints_stand_alone(
    records: Seq<LookupModel>,
    k: int,
    j: int,
    endpoint: Endpoint,
)
    requires
        0 <= k < records.len(),
        nobody_signed(records[k]),
        records[k].answers is Some,
        0 <= j < records[k].answers->0.len(),
        records[k].answers->0[j].endpoint == Some(endpoint),
    ensures
        exists|i: int|
            0 <= i < normalized(records).len() && #[trigger] stands_alone(
                normalized(records)[i],
                endpoint,
            ),
        forall|i: int, l: int|
            0 <= i < normalized(records).len() && 0 <= l < normalized(records).len()
                && #[trigger] stands_alone(normalized(records)[i], endpoint)
                && #[trigger] stands_alone(normalized(records)[l], endpoint) ==> i == l,
{
    let key = endpoint.key();
    let answers = records[k].answers->0;
    lemma_unsigned(records[k]);
    assert(answers[j].endpoint is Some);
    assert(has_endpoint(answers));
    assert(answers_announce(answers, key));
    assert(is_split(records[k]));
    assert(announces(records, key));
    law_normalizing_keeps_the_endpoints(records, key);
    law_normalized_endpoints_are_unique(records);
    let normal = normalized(records);
    let i = choose|i: int|
        0 <= i < normal.len() && is_split(#[trigger] normal[i]) && answers_announce(
            normal[i].answers->0,
            key,
        );
    lemma_unsigned(normal[i]);
    assert(stands_alone(normal[i], endpoint));
    assert forall|i: int, l: int|
        0 <= i < normal.len() && 0 <= l < normal.len() && #[trigger] stands_alone(
            normal[i],
            endpoint,
        ) && #[trigger] stands_alone(normal[l], endpoint) implies i == l by {
        lemma_unsigned(normal[i]);
        lemma_unsigned(normal[l]);
        assert(normal[i].answers->0[0].endpoint is Some);
        assert(normal[l].answers->0[0].endpoint is Some);
        assert(is_split(normal[i]) && is_split(normal[l]));
    }
}

/// The record announces an endpoint that is reached at the same address, and nothing else.
pub open spec fn stands_alone(record: LookupModel, endpoint: Endpoint) -> bool {
    nobody_signed(record) && record.answers is Some && record.answers->0.len() == 1
        && record.answers->0[0].endpoint is Some && record.answers->0[0].endpoint->0.addr
        == endpoint.addr && record.answers->0[0].endpoint->0.agent == endpoint.agent
}

/// A record holds what it is made of.
pub proof fn law_records_hold_what_they_are_made_of(record: LookupRecord)
    ensures
        record@.signature_fields == record.signature_fields@,
        record@.cert == record.cert@,
        record.dns matches Some(dns) ==> record@.dns == Some(dns@),
        record.dns is None ==> record@.dns is None,
        record.answers matches Some(answers) ==> record@.answers == Some(views(answers@)),
        record.answers is None ==> record@.answers is None,
{
}

/// The place of a client is known where its address is known and places are.
pub proof fn law_clients_are_where_their_address_is(ip: IpAddress, geo: GeoResolver)
    ensures
        source_traits(Some(ip), Some(geo)) == Some(geo.traits_of(ip)),
        source_traits(None, Some(geo)) is None,
        source_traits(Some(ip), None) is None,
        source_traits(None, None) is None,
{
}

/// Cities count only within the country of the client: what cities are known elsewhere does
/// not change the order.
pub proof fn law_cities_count_only_within_the_country_of_the_client(
    records: Seq<LookupModel>,
    source_ip: IpAddress,
    one: GeoResolver,
    two: GeoResolver,
)
    requires
        one.city_distance_routing == two.city_distance_routing,
        one.max_accuracy_radius_km == two.max_accuracy_radius_km,
        one.traits_of(source_ip) == two.traits_of(source_ip),
        forall|ip: IpAddress| #[trigger]
            one.traits_of(ip).country == two.traits_of(ip).country && one.traits_of(ip).asn
                == two.traits_of(ip).asn && one.traits_of(ip).point == two.traits_of(ip).point,
        forall|ip: IpAddress| #[trigger] one.distance_of(ip) == two.distance_of(ip),
        forall|ip: IpAddress|
            one.traits_of(source_ip).country is Some && #[trigger] one.traits_of(ip).country
                == one.traits_of(source_ip).country ==> one.traits_of(ip).city == two.traits_of(
                ip,
            ).city,
    ensures
        ranked_records(records, Some(source_ip), Some(one)) == ranked_records(
            records,
            Some(source_ip),
            Some(two),
        ),
{
    assert(geo_keys(records, Some(source_ip), one) =~= geo_keys(records, Some(source_ip), two));
}

} // verus!
