//! Answering lookups.
use vstd::prelude::*;

use crate::net::IpAddress;
use crate::protocol::packet::EndpointKey;
use crate::protocol::wire::{lemma_views_push, views, ResponseRecord, ResponseRecordModel};
use crate::server::error::{allowed_host, normalize_host, AppError};
use crate::server::geo::{GeoResolver, GeoTraits, GeoTraitsModel};
use crate::server::index::{lemma_filter_no_duplicates, tagged, Fingerprint};
use crate::server::ranking::{
    announces, is_split, law_normalizing_keeps_the_endpoints,
    law_normalizing_keeps_what_comes_first, law_ranking_keeps_records_normalized,
    law_ranking_keeps_the_records, law_whole_records_are_kept, lemma_announced_by_either,
    normalize_lookup_records, normalized, ranked_records, request_source_geo_traits,
    sort_lookup_records, sort_lookup_records_with_geo, source_traits, LookupModel, LookupRecord,
};
use crate::server::storage::{
    asn_of, at_most, country_of, law_active_records_are_those_that_expire_later, law_candidates,
    law_publishers_of_the_country_are_considered_in_order,
    law_publishers_of_the_system_are_considered_in_order,
    law_the_last_publishers_are_considered_for_unknown_clients, least, lemma_active_is_well_kept,
    push_unique, HostModel, HostRecords, MemoryStorage, RecordModel,
};
use crate::text::text_eq;

verus! {

/// How many publishers a lookup considers, unless it asks for more records.
pub const LOOKUP_CANDIDATE_CAP_TOTAL: usize = 64;

/// How many publishers of the autonomous system of the client are considered.
pub const LOOKUP_CANDIDATE_CAP_ASN: usize = 16;

/// How many publishers of the country of the client are considered.
pub const LOOKUP_CANDIDATE_CAP_COUNTRY: usize = 16;

/// How many publishers are considered beside those near the client.
pub const LOOKUP_CANDIDATE_CAP_ALL: usize = 32;

pub open spec fn total_cap(limit: Option<usize>) -> usize {
    match limit {
        Some(limit) => if limit > LOOKUP_CANDIDATE_CAP_TOTAL {
            limit
        } else {
            LOOKUP_CANDIDATE_CAP_TOTAL
        },
        None => LOOKUP_CANDIDATE_CAP_TOTAL,
    }
}

/// How many publishers a lookup considers.
pub fn candidate_total_cap(limit: Option<usize>) -> (r: usize)
    ensures
        r == total_cap(limit),
{
    match limit {
        Some(limit) => if limit > LOOKUP_CANDIDATE_CAP_TOTAL {
            limit
        } else {
            LOOKUP_CANDIDATE_CAP_TOTAL
        },
        None => LOOKUP_CANDIDATE_CAP_TOTAL,
    }
}

pub open spec fn all_cap(total: usize, source: Option<GeoTraitsModel>) -> usize {
    match source {
        Some(source) => if (source.asn is Some || source.country is Some)
            && LOOKUP_CANDIDATE_CAP_ALL < total {
            LOOKUP_CANDIDATE_CAP_ALL
        } else {
            total
        },
        None => total,
    }
}

/// How many publishers are considered beside those near the client. Where nothing
/// near can be told, all are.
pub fn all_candidate_cap(total_cap: usize, source_traits: Option<&GeoTraits>) -> (r: usize)
    ensures
        r == all_cap(
            total_cap,
            match source_traits {
                Some(traits) => Some(traits@),
                None => None,
            },
        ),
{
    match source_traits {
        Some(traits) => if (traits.asn.is_some() || traits.country.is_some())
            && LOOKUP_CANDIDATE_CAP_ALL < total_cap {
            LOOKUP_CANDIDATE_CAP_ALL
        } else {
            total_cap
        },
        None => total_cap,
    }
}

/// Adds the items that are not there yet, until there are `total_cap`.
pub fn push_unique_candidates(
    candidates: &mut Vec<String>,
    source: Vec<String>,
    total_cap: usize,
)
    ensures
        views(final(candidates)@) == push_unique(
            views(old(candidates)@),
            views(source@),
            total_cap as nat,
        ),
{
    let ghost taken = views(candidates@);
    let ghost items = views(source@);
    let mut i: usize = 0;
    assert(items.take(0) =~= Seq::<Seq<char>>::empty());
    while i < source.len()
        invariant
            i <= source@.len(),
            items == views(source@),
            views(candidates@) == push_unique(taken, items.take(i as int), total_cap as nat),
        decreases source@.len() - i,
    {
        proof {
            assert(items.take(i + 1).drop_last() =~= items.take(i as int));
            assert(items.take(i + 1).last() == source@[i as int]@);
        }
        if candidates.len() < total_cap && !contains_text(candidates, source[i].as_str()) {
            let item = source[i].clone();
            proof {
                lemma_views_push(candidates@, item);
            }
            candidates.push(item);
        }
        i = i + 1;
    }
    assert(items.take(i as int) =~= items);
}

fn contains_text(list: &Vec<String>, text: &str) -> (r: bool)
    ensures
        r == views(list@).contains(text@),
{
    let mut i: usize = 0;
    while i < list.len()
        invariant
            i <= list@.len(),
            forall|j: int| 0 <= j < i ==> #[trigger] views(list@)[j] != text@,
        decreases list@.len() - i,
    {
        assert(views(list@)[i as int] == list@[i as int]@);
        if text_eq(list[i].as_str(), text) {
            return true;
        }
        i = i + 1;
    }
    false
}

/// The outcome of a lookup.
#[derive(Debug, PartialEq, Eq)]
pub enum LookupResult {
    NotFound,
    /// The records in the order in which the client is to try them.
    Multi(Vec<LookupRecord>),
}

/// The records that a lookup answers with. The records of the publishers come first,
/// and the configured ones follow, unless there are as many as were asked for.
pub open spec fn lookup_answer(
    dynamic: Seq<LookupModel>,
    seeds: Option<Seq<LookupModel>>,
    limit: Option<usize>,
    source_ip: Option<IpAddress>,
    geo: Option<GeoResolver>,
) -> Seq<LookupModel> {
    let found = ranked_records(normalized(dynamic), source_ip, geo);
    let wanted = match limit {
        Some(limit) => found.len() < limit,
        None => true,
    };
    let all = match seeds {
        Some(seeds) => if wanted {
            found + ranked_records(seeds, source_ip, geo)
        } else {
            found
        },
        None => found,
    };
    match limit {
        Some(limit) => at_most(normalized(all), limit as nat),
        None => normalized(all),
    }
}

fn ranked_by(records: Vec<LookupRecord>, source_ip: Option<IpAddress>, geo: Option<&GeoResolver>) -> (r:
    Vec<LookupRecord>)
    ensures
        views(r@) == ranked_records(
            views(records@),
            source_ip,
            match geo {
                Some(geo) => Some(*geo),
                None => None,
            },
        ),
{
    match geo {
        Some(geo) => sort_lookup_records_with_geo(records, source_ip, geo),
        None => sort_lookup_records(records, source_ip),
    }
}

/// Answers a lookup from the records of the publishers and from the configured ones.
pub fn answer_lookup(
    dynamic: Vec<LookupRecord>,
    seeds: Option<Vec<LookupRecord>>,
    limit: Option<usize>,
    source_ip: Option<IpAddress>,
    geo: Option<&GeoResolver>,
) -> (r: LookupResult)
    ensures
        ({
            let answer = lookup_answer(
                views(dynamic@),
                match seeds {
                    Some(seeds) => Some(views(seeds@)),
                    None => None,
                },
                limit,
                source_ip,
                match geo {
                    Some(geo) => Some(*geo),
                    None => None,
                },
            );
            match r {
                LookupResult::NotFound => answer.len() == 0,
                LookupResult::Multi(records) => answer.len() > 0 && views(records@) == answer,
            }
        }),
{
    let normal = normalize_lookup_records(dynamic);
    let mut records = ranked_by(normal, source_ip, geo);
    let wanted = match limit {
        Some(limit) => records.len() < limit,
        None => true,
    };
    if wanted {
        if let Some(seeds) = seeds {
            let mut more = ranked_by(seeds, source_ip, geo);
            let ghost found = views(records@);
            let ghost tail = views(more@);
            records.append(&mut more);
            assert(views(records@) =~= found + tail);
        }
    }
    let mut records = normalize_lookup_records(records);
    let ghost all = views(records@);
    if let Some(limit) = limit {
        records.truncate(limit);
        assert(views(records@) =~= at_most(all, limit as nat));
    }
    if records.is_empty() {
        LookupResult::NotFound
    } else {
        LookupResult::Multi(records)
    }
}

/// Answers a lookup for what was found. Where the host must not be answered for,
/// which `None` says, its configured records are not told either.
pub fn finish_lookup(
    found: Option<Vec<LookupRecord>>,
    seeds: Option<Vec<LookupRecord>>,
    limit: Option<usize>,
    source_ip: Option<IpAddress>,
    geo: Option<&GeoResolver>,
) -> (r: LookupResult)
    ensures
        found is None ==> r == LookupResult::NotFound,
        found matches Some(found) ==> {
            let answer = lookup_answer(
                views(found@),
                match seeds {
                    Some(seeds) => Some(views(seeds@)),
                    None => None,
                },
                limit,
                source_ip,
                match geo {
                    Some(geo) => Some(*geo),
                    None => None,
                },
            );
            match r {
                LookupResult::NotFound => answer.len() == 0,
                LookupResult::Multi(records) => answer.len() > 0 && views(records@) == answer,
            }
        },
{
    match found {
        Some(found) => answer_lookup(found, seeds, limit, source_ip, geo),
        None => LookupResult::NotFound,
    }
}

/// A record as a client gets it.
pub open spec fn as_response(record: RecordModel) -> ResponseRecordModel {
    ResponseRecordModel {
        signature_fields: record.signature_fields,
        dns: record.dns,
        cert: record.cert,
    }
}

/// The records of the publishers to consider for a lookup from a place. The stale
/// ones are left out.
pub open spec fn memory_records(
    host: HostModel,
    source: Option<GeoTraitsModel>,
    limit: Option<usize>,
    now: u128,
) -> Seq<ResponseRecordModel> {
    let active = host.active(now);
    let total = total_cap(limit);
    let from = match source {
        Some(source) => source,
        None => GeoTraitsModel::unknown(),
    };
    let found = active.candidates(
        from.country,
        from.asn,
        total as nat,
        LOOKUP_CANDIDATE_CAP_ASN as nat,
        LOOKUP_CANDIDATE_CAP_COUNTRY as nat,
        all_cap(total, source) as nat,
    );
    found.map_values(|fp: Seq<u8>| as_response(active.records[fp]))
}

/// What a lookup leaves of the records of a host: the stale ones are gone.
pub open spec fn after_lookup(storage: MemoryStorage, host: Seq<char>, now: u128) -> HostModel {
    storage.host(host).active(now)
}

/// Whether two storages differ in one host at most.
pub open spec fn same_but(a: MemoryStorage, b: MemoryStorage, host: Seq<char>) -> bool {
    a.hosts().remove(host) == b.hosts().remove(host) && a.blacklisted() == b.blacklisted()
}

fn collect_active(entry: &HostRecords, found: &Vec<Fingerprint>) -> (r: Vec<ResponseRecord>)
    requires
        entry.wf(),
        forall|fp: Seq<u8>| #[trigger]
            views(found@).contains(fp) ==> entry@.records.dom().contains(fp),
    ensures
        views(r@) == views(found@).map_values(|fp: Seq<u8>| as_response(entry@.records[fp])),
{
    let mut out: Vec<ResponseRecord> = Vec::new();
    let ghost wanted = views(found@).map_values(|fp: Seq<u8>| as_response(entry@.records[fp]));
    let mut i: usize = 0;
    while i < found.len()
        invariant
            i <= found@.len(),
            entry.wf(),
            wanted == views(found@).map_values(|fp: Seq<u8>| as_response(entry@.records[fp])),
            forall|fp: Seq<u8>| #[trigger]
                views(found@).contains(fp) ==> entry@.records.dom().contains(fp),
            out@.len() == i,
            forall|j: int| 0 <= j < i ==> (#[trigger] out@[j])@ == wanted[j],
        decreases found@.len() - i,
    {
        assert(views(found@)[i as int] == found@[i as int]@);
        assert(views(found@).contains(found@[i as int]@));
        match entry.get(&found[i]) {
            Some(record) => {
                out.push(
                    ResponseRecord::new(
                        record.signature_fields.clone(),
                        vstd::slice::slice_to_vec(record.dns_bytes.as_slice()),
                        vstd::slice::slice_to_vec(record.cert_bytes.as_slice()),
                    ),
                );
            },
            None => {},
        }
        i = i + 1;
    }
    assert(views(out@) =~= wanted);
    out
}

/// The records of the publishers to consider for a lookup, or `None` for a host that
/// is not looked up. Stale records of the host are dropped on the way.
pub fn lookup_in_memory(
    storage: &mut MemoryStorage,
    host: &str,
    limit: Option<usize>,
    source: Option<&GeoTraits>,
    now: u128,
) -> (r: Option<Vec<ResponseRecord>>)
    requires
        old(storage).wf(),
    ensures
        final(storage).wf(),
        same_but(*final(storage), *old(storage), host@),
        r is None <==> old(storage).blacklisted().contains(host@),
        r is None ==> final(storage).hosts() == old(storage).hosts(),
        r is Some ==> final(storage).host(host@) == after_lookup(*old(storage), host@, now),
        r is Some ==> views((r->0)@) == memory_records(
            old(storage).host(host@),
            match source {
                Some(traits) => Some(traits@),
                None => None,
            },
            limit,
            now,
        ),
{
    if storage.is_blacklisted(host) {
        return None;
    }
    let total = candidate_total_cap(limit);
    let all = all_candidate_cap(total, source);
    let (country, asn): (Option<&str>, Option<u32>) = match source {
        Some(traits) => (
            match &traits.country {
                Some(country) => Some(country.as_str()),
                None => None,
            },
            traits.asn,
        ),
        None => (None, None),
    };
    match storage.take(host) {
        Some(mut entry) => {
            entry.retain_active(now);
            let found = entry.collect_candidates(
                country,
                asn,
                total,
                LOOKUP_CANDIDATE_CAP_ASN,
                LOOKUP_CANDIDATE_CAP_COUNTRY,
                all,
            );
            proof {
                law_candidates(
                    entry@,
                    match country {
                        Some(country) => Some(country@),
                        None => None,
                    },
                    asn,
                    total as nat,
                    LOOKUP_CANDIDATE_CAP_ASN as nat,
                    LOOKUP_CANDIDATE_CAP_COUNTRY as nat,
                    all as nat,
                );
            }
            let records = collect_active(&entry, &found);
            proof {
                assert(views(records@) =~= memory_records(
                    old(storage).host(host@),
                    match source {
                        Some(traits) => Some(traits@),
                        None => None,
                    },
                    limit,
                    now,
                ));
            }
            storage.put(host, entry);
            assert(storage.hosts().remove(host@) =~= old(storage).hosts().remove(host@));
            Some(records)
        },
        None => {
            let records: Vec<ResponseRecord> = Vec::new();
            proof {
                let empty = HostModel::empty();
                lemma_empty_host(empty, now);
                law_candidates(
                    empty,
                    match country {
                        Some(country) => Some(country@),
                        None => None,
                    },
                    asn,
                    total as nat,
                    LOOKUP_CANDIDATE_CAP_ASN as nat,
                    LOOKUP_CANDIDATE_CAP_COUNTRY as nat,
                    all as nat,
                );
                let found = empty.candidates(
                    match country {
                        Some(country) => Some(country@),
                        None => None,
                    },
                    asn,
                    total as nat,
                    LOOKUP_CANDIDATE_CAP_ASN as nat,
                    LOOKUP_CANDIDATE_CAP_COUNTRY as nat,
                    all as nat,
                );
                assert(found.len() == 0) by {
                    if found.len() > 0 {
                        assert(found.contains(found[0]));
                    }
                }
                assert(views(records@) =~= memory_records(
                    old(storage).host(host@),
                    match source {
                        Some(traits) => Some(traits@),
                        None => None,
                    },
                    limit,
                    now,
                ));
                assert(storage.hosts() =~= old(storage).hosts());
            }
            Some(records)
        },
    }
}

proof fn lemma_empty_host(empty: HostModel, now: u128)
    requires
        empty == HostModel::empty(),
    ensures
        empty.active(now) == empty,
        empty.wf(),
{
    reveal(Seq::filter);
    assert(empty.active(now).recent =~= empty.recent);
    assert(empty.active(now).records =~= empty.records);
    assert(empty.recent.to_set() =~= empty.records.dom());
}

/// Looks a host up in memory: its normal form and the records of the publishers to
/// consider, or nothing for a host that is not looked up.
pub fn perform_lookup(
    storage: &mut MemoryStorage,
    host_allowlist: &Vec<String>,
    host: &str,
    limit: Option<usize>,
    source_ip: Option<IpAddress>,
    geo: Option<&GeoResolver>,
    now: u128,
) -> (r: Result<Option<(String, Vec<ResponseRecord>)>, AppError>)
    requires
        old(storage).wf(),
    ensures
        final(storage).wf(),
        match (r, allowed_host(host@, views(host_allowlist@))) {
            (Err(e), Err(fault)) => e@ == fault && final(storage).hosts() == old(storage).hosts()
                && final(storage).blacklisted() == old(storage).blacklisted(),
            (Ok(None), Ok(name)) => old(storage).blacklisted().contains(name)
                && final(storage).hosts() == old(storage).hosts() && final(storage).blacklisted()
                == old(storage).blacklisted(),
            (Ok(Some((found, records))), Ok(name)) => {
                &&& !old(storage).blacklisted().contains(name)
                &&& found@ == name
                &&& same_but(*final(storage), *old(storage), name)
                &&& final(storage).host(name) == after_lookup(*old(storage), name, now)
                &&& views(records@) == memory_records(
                    old(storage).host(name),
                    source_traits(
                        source_ip,
                        match geo {
                            Some(geo) => Some(*geo),
                            None => None,
                        },
                    ),
                    limit,
                    now,
                )
            },
            _ => false,
        },
{
    let name = match normalize_host(host, host_allowlist) {
        Ok(name) => name,
        Err(e) => return Err(e),
    };
    let source = request_source_geo_traits(source_ip, geo);
    match lookup_in_memory(storage, name.as_str(), limit, source.as_ref(), now) {
        Some(records) => Ok(Some((name, records))),
        None => Ok(None),
    }
}

proof fn lemma_push_unique_first<A>(taken: Seq<A>, items: Seq<A>, total: nat)
    requires
        taken.len() < total,
        items.len() > 0,
    ensures
        push_unique(taken, items, total).contains(items[0]),
    decreases items.len(),
{
    let so_far = push_unique(taken, items.drop_last(), total);
    if items.len() == 1 {
        assert(items.drop_last() =~= Seq::<A>::empty());
        assert(so_far == taken);
        if !so_far.contains(items.last()) {
            assert(so_far.push(items.last())[so_far.len() as int] == items[0]);
        }
    } else {
        lemma_push_unique_first(taken, items.drop_last(), total);
        let k = choose|k: int| 0 <= k < so_far.len() && so_far[k] == items[0];
        if !(so_far.len() >= total || so_far.contains(items.last())) {
            assert(so_far.push(items.last())[k] == items[0]);
        }
    }
}

proof fn lemma_push_unique_len<A>(taken: Seq<A>, items: Seq<A>, total: nat)
    ensures
        push_unique(taken, items, total).len() <= taken.len() + items.len(),
    decreases items.len(),
{
    if items.len() > 0 {
        lemma_push_unique_len(taken, items.drop_last(), total);
    }
}

/// Until it goes stale, the record that was published last for a host is among those
/// that a lookup considers, wherever the lookup comes from.
pub proof fn law_published_record_is_found(
    before: HostModel,
    fp: Seq<u8>,
    record: RecordModel,
    source: Option<GeoTraitsModel>,
    limit: Option<usize>,
    now: u128,
)
    requires
        record.expire > now,
    ensures
        memory_records(before.inserted(fp, record), source, limit, now).contains(
            as_response(record),
        ),
{
    let host = before.inserted(fp, record);
    let active = host.active(now);
    let rest = crate::server::index::without(before.recent, fp);
    crate::server::index::lemma_filter_front(fp, rest, host.is_active(now));
    assert(host.is_active(now)(fp));
    assert(active.recent[0] == fp);
    assert(active.records[fp] == record);
    let total = total_cap(limit) as nat;
    let from = match source {
        Some(source) => source,
        None => GeoTraitsModel::unknown(),
    };
    let none = Seq::<Seq<u8>>::empty();
    let asn_cap = LOOKUP_CANDIDATE_CAP_ASN as nat;
    let country_cap = LOOKUP_CANDIDATE_CAP_COUNTRY as nat;
    let everyone = all_cap(total_cap(limit), source) as nat;
    let near_items = match from.asn {
        Some(asn) => at_most(active.in_asn(asn), crate::server::storage::least(asn_cap, total)),
        None => none,
    };
    let near = push_unique(none, near_items, total);
    let home_items = match from.country {
        Some(country) => at_most(
            active.in_country(country),
            crate::server::storage::least(country_cap, total),
        ),
        None => none,
    };
    let home = push_unique(near, home_items, total);
    let all_items = at_most(active.recent, crate::server::storage::least(everyone, total));
    lemma_push_unique_len(none, near_items, total);
    lemma_push_unique_len(near, home_items, total);
    assert(home.len() <= 32);
    assert(all_items[0] == fp);
    lemma_push_unique_first(home, all_items, total);
    let found = push_unique(home, all_items, total);
    assert(found == active.candidates(
        from.country,
        from.asn,
        total,
        asn_cap,
        country_cap,
        everyone,
    ));
    let k = choose|k: int| 0 <= k < found.len() && found[k] == fp;
    assert(memory_records(host, source, limit, now)[k] == as_response(record));
}

/// What a lookup considers comes from publishers whose records are not stale, and not
/// from one that withdrew its record.
pub proof fn law_withdrawn_and_stale_records_are_not_found(
    host: HostModel,
    gone: Seq<u8>,
    country: Option<Seq<char>>,
    asn: Option<u32>,
    caps: (nat, nat, nat, nat),
    now: u128,
)
    requires
        host.wf(),
    ensures
        ({
            let found = host.removed(gone).active(now).candidates(
                country,
                asn,
                caps.0,
                caps.1,
                caps.2,
                caps.3,
            );
            &&& !found.contains(gone)
            &&& forall|fp: Seq<u8>| #[trigger]
                found.contains(fp) ==> host.records.dom().contains(fp) && host.records[fp].expire
                    > now
        }),
{
    let less = host.removed(gone);
    let active = less.active(now);
    crate::server::index::lemma_filter_no_duplicates(
        host.recent,
        crate::server::index::other_than(gone),
    );
    crate::server::index::lemma_filter_no_duplicates(less.recent, less.is_active(now));
    assert(less.recent.to_set() =~= less.records.dom()) by {
        assert forall|x: Seq<u8>| less.recent.contains(x) <==> less.records.dom().contains(x) by {
            assert(host.recent.to_set().contains(x) <==> host.records.dom().contains(x));
        }
    }
    assert(active.recent.to_set() =~= active.records.dom()) by {
        assert forall|x: Seq<u8>| active.recent.contains(x)
            <==> active.records.dom().contains(x) by {
            assert(less.recent.to_set().contains(x) <==> less.records.dom().contains(x));
        }
    }
    law_candidates(active, country, asn, caps.0, caps.1, caps.2, caps.3);
}

/// A lookup never answers with more records than were asked for.
pub proof fn law_answers_respect_the_limit(
    dynamic: Seq<LookupModel>,
    seeds: Option<Seq<LookupModel>>,
    limit: usize,
    source_ip: Option<IpAddress>,
    geo: Option<GeoResolver>,
)
    ensures
        lookup_answer(dynamic, seeds, Some(limit), source_ip, geo).len() <= limit,
{
}

/// A limit only shortens the answer: the records that stay are the first ones.
pub proof fn law_a_limit_keeps_the_first_records(
    dynamic: Seq<LookupModel>,
    seeds: Option<Seq<LookupModel>>,
    limit: usize,
    source_ip: Option<IpAddress>,
    geo: Option<GeoResolver>,
)
    ensures
        lookup_answer(dynamic, seeds, Some(limit), source_ip, geo) == at_most(
            lookup_answer(dynamic, seeds, None, source_ip, geo),
            limit as nat,
        ),
{
    let found = ranked_records(normalized(dynamic), source_ip, geo);
    if let Some(seeds) = seeds {
        let more = ranked_records(seeds, source_ip, geo);
        law_ranking_keeps_records_normalized(dynamic, source_ip, geo);
        law_normalizing_keeps_what_comes_first(found, more);
        if found.len() >= limit {
            let all = normalized(found + more);
            assert(all.take(limit as int) =~= all.take(found.len() as int).take(limit as int));
        }
    }
}

/// Without a limit, a lookup answers with all records of the publishers, in their
/// order, and behind them with those of the configured records: each that is not
/// split, and each endpoint of the others that the publishers did not announce.
pub proof fn law_configured_records_follow_the_published_ones(
    dynamic: Seq<LookupModel>,
    seeds: Seq<LookupModel>,
    source_ip: Option<IpAddress>,
    geo: Option<GeoResolver>,
)
    ensures
        ({
            let found = ranked_records(normalized(dynamic), source_ip, geo);
            let answer = lookup_answer(dynamic, Some(seeds), None, source_ip, geo);
            &&& found.len() <= answer.len()
            &&& answer.take(found.len() as int) == found
            &&& forall|i: int|
                0 <= i < seeds.len() && !is_split(#[trigger] seeds[i]) ==> answer.contains(
                    seeds[i],
                )
            &&& forall|key: EndpointKey| #[trigger]
                announces(answer, key) <==> announces(found, key) || announces(seeds, key)
        }),
{
    let found = ranked_records(normalized(dynamic), source_ip, geo);
    let more = ranked_records(seeds, source_ip, geo);
    let all = found + more;
    let answer = lookup_answer(dynamic, Some(seeds), None, source_ip, geo);
    law_ranking_keeps_records_normalized(dynamic, source_ip, geo);
    law_normalizing_keeps_what_comes_first(found, more);
    law_ranking_keeps_the_records(seeds, source_ip, geo);
    law_whole_records_are_kept(all);
    assert forall|i: int| 0 <= i < seeds.len() && !is_split(#[trigger] seeds[i]) implies
        answer.contains(seeds[i]) by {
        assert(more.contains(seeds[i]));
        let k = choose|k: int| 0 <= k < more.len() && more[k] == seeds[i];
        assert(all[found.len() + k] == seeds[i]);
    }
    assert forall|key: EndpointKey| #[trigger] announces(answer, key) <==> announces(found, key)
        || announces(seeds, key) by {
        law_normalizing_keeps_the_endpoints(all, key);
        lemma_announced_by_either(found, more, key);
    }
}

/// The configured records of the hosts that have some.
#[derive(Debug, PartialEq, Eq)]
pub struct SeedRecords {
    pub entries: Vec<(String, LookupRecord)>,
}

impl View for SeedRecords {
    type V = Seq<(Seq<char>, LookupModel)>;

    open spec fn view(&self) -> Seq<(Seq<char>, LookupModel)> {
        self.entries@.map_values(|e: (String, LookupRecord)| (e.0@, e.1@))
    }
}

/// The configured records of a host, in order.
pub open spec fn seeds_of(entries: Seq<(Seq<char>, LookupModel)>, host: Seq<char>) -> Seq<
    LookupModel,
>
    decreases entries.len(),
{
    if entries.len() == 0 {
        Seq::empty()
    } else {
        let front = seeds_of(entries.drop_last(), host);
        if entries.last().0 == host {
            front.push(entries.last().1)
        } else {
            front
        }
    }
}

impl SeedRecords {
    /// The configured records of a host, or `None` where it has none.
    pub fn get(&self, host: &str) -> (r: Option<Vec<LookupRecord>>)
        ensures
            r is None <==> seeds_of(self@, host@).len() == 0,
            r is Some ==> views((r->0)@) == seeds_of(self@, host@),
    {
        let mut found: Vec<LookupRecord> = Vec::new();
        let mut i: usize = 0;
        assert(views(found@) =~= Seq::<LookupModel>::empty());
        while i < self.entries.len()
            invariant
                i <= self.entries@.len(),
                views(found@) == seeds_of(self@.take(i as int), host@),
            decreases self.entries@.len() - i,
        {
            proof {
                assert(self@.take(i + 1).drop_last() =~= self@.take(i as int));
                assert(self@.take(i + 1).last() == (
                    self.entries@[i as int].0@,
                    self.entries@[i as int].1@,
                ));
            }
            if text_eq(self.entries[i].0.as_str(), host) {
                let record = self.entries[i].1.clone();
                proof {
                    lemma_views_push(found@, record);
                }
                found.push(record);
            }
            i = i + 1;
        }
        assert(self@.take(i as int) =~= self@);
        if found.is_empty() {
            None
        } else {
            Some(found)
        }
    }
}

/// A lookup considers as many publishers as it may answer with, and no fewer than there is
/// room for without a limit.
pub proof fn law_there_is_room_for_the_limit(limit: usize)
    ensures
        total_cap(Some(limit)) >= limit,
        total_cap(Some(limit)) >= 64,
        total_cap(Some(limit)) == limit || total_cap(Some(limit)) == 64,
        total_cap(None) == 64,
{
}

/// For a client whose place is known, room is left for the publishers near it. For any other,
/// all the room is for the publishers in order.
pub proof fn law_room_is_left_for_publishers_near_the_client(total: usize, source: GeoTraitsModel)
    ensures
        all_cap(total, None) == total,
        source.asn is None && source.country is None ==> all_cap(total, Some(source)) == total,
        (source.asn is Some || source.country is Some) && total >= 64 ==> all_cap(
            total,
            Some(source),
        ) == 32,
        all_cap(total, Some(source)) <= total,
{
}

/// Whether an answer holds a record as its publisher sent it.
pub open spec fn answers_with(answer: Seq<ResponseRecordModel>, i: int, record: RecordModel) -> bool {
    &&& 0 <= i < answer.len()
    &&& answer[i].dns == record.dns
    &&& answer[i].cert == record.cert
    &&& answer[i].signature_fields == record.signature_fields
}

/// A client whose place is not known is answered with the active records of the host, from
/// the last one that was published on, as many as there is room for.
pub proof fn law_unknown_clients_are_answered_with_the_last_records(
    host: HostModel,
    source: Option<GeoTraitsModel>,
    limit: Option<usize>,
    now: u128,
    i: int,
)
    requires
        host.wf(),
        source matches Some(source) ==> source.country is None && source.asn is None,
    ensures
        ({
            let active = host.active(now).recent;
            let answer = memory_records(host, source, limit, now);
            &&& answer.len() <= active.len()
            &&& active.len() <= 64 ==> answer.len() == active.len()
            &&& limit matches Some(limit) ==> answer.len() >= limit || answer.len()
                == active.len()
            &&& 0 <= i < answer.len() ==> answers_with(answer, i, host.records[active[i]])
        }),
{
    let active = host.active(now);
    lemma_active_is_well_kept(host, now);
    let total = total_cap(limit);
    law_the_last_publishers_are_considered_for_unknown_clients(
        active,
        total as nat,
        LOOKUP_CANDIDATE_CAP_ASN as nat,
        LOOKUP_CANDIDATE_CAP_COUNTRY as nat,
        all_cap(total, source) as nat,
        i,
    );
    let answer = memory_records(host, source, limit, now);
    if 0 <= i < answer.len() {
        assert(active.recent.to_set().contains(active.recent[i]));
        law_active_records_are_those_that_expire_later(host, active.recent[i], now);
    }
}

/// A client whose autonomous system is known is answered first with the active records of the
/// publishers of the system, from the last one that was published on.
pub proof fn law_records_of_the_system_are_answered_first(
    host: HostModel,
    source: GeoTraitsModel,
    limit: Option<usize>,
    now: u128,
    i: int,
)
    requires
        host.wf(),
        source.asn is Some,
        0 <= i < 16,
        i < host.active(now).in_asn(source.asn->0).len(),
    ensures
        answers_with(
            memory_records(host, Some(source), limit, now),
            i,
            host.records[host.active(now).in_asn(source.asn->0)[i]],
        ),
{
    let active = host.active(now);
    lemma_active_is_well_kept(host, now);
    let total = total_cap(limit);
    law_publishers_of_the_system_are_considered_in_order(
        active,
        source.country,
        source.asn->0,
        total as nat,
        LOOKUP_CANDIDATE_CAP_ASN as nat,
        LOOKUP_CANDIDATE_CAP_COUNTRY as nat,
        all_cap(total, Some(source)) as nat,
        i,
    );
    let fp = active.in_asn(source.asn->0)[i];
    assert(active.in_asn(source.asn->0).contains(fp));
    lemma_filter_no_duplicates(active.recent, tagged(asn_of(active.records), source.asn->0));
    assert(active.recent.to_set().contains(fp));
    law_active_records_are_those_that_expire_later(host, fp, now);
}

/// A client of whom only the country is known is answered first with the active records of the
/// publishers of the country, from the last one that was published on.
pub proof fn law_records_of_the_country_are_answered_first(
    host: HostModel,
    source: GeoTraitsModel,
    limit: Option<usize>,
    now: u128,
    i: int,
)
    requires
        host.wf(),
        source.asn is None,
        source.country is Some,
        0 <= i < 16,
        i < host.active(now).in_country(source.country->0).len(),
    ensures
        answers_with(
            memory_records(host, Some(source), limit, now),
            i,
            host.records[host.active(now).in_country(source.country->0)[i]],
        ),
{
    let active = host.active(now);
    lemma_active_is_well_kept(host, now);
    let total = total_cap(limit);
    law_publishers_of_the_country_are_considered_in_order(
        active,
        source.country->0,
        total as nat,
        LOOKUP_CANDIDATE_CAP_ASN as nat,
        LOOKUP_CANDIDATE_CAP_COUNTRY as nat,
        all_cap(total, Some(source)) as nat,
        i,
    );
    let fp = active.in_country(source.country->0)[i];
    assert(active.in_country(source.country->0).contains(fp));
    lemma_filter_no_duplicates(
        active.recent,
        tagged(country_of(active.records), source.country->0),
    );
    assert(active.recent.to_set().contains(fp));
    law_active_records_are_those_that_expire_later(host, fp, now);
}

/// Every publisher whose record is active is answered with, wherever the client is, as long as
/// there are not too many of them.
pub proof fn law_every_active_record_is_answered_with(
    host: HostModel,
    source: Option<GeoTraitsModel>,
    limit: Option<usize>,
    now: u128,
    fp: Seq<u8>,
)
    requires
        host.wf(),
        host.active(now).recent.len() <= 32,
        host.records.dom().contains(fp),
        host.records[fp].expire > now,
    ensures
        memory_records(host, source, limit, now).len() == host.active(now).recent.len(),
        exists|i: int| #[trigger]
            answers_with(memory_records(host, source, limit, now), i, host.records[fp]),
{
    let active = host.active(now);
    lemma_active_is_well_kept(host, now);
    let total = total_cap(limit);
    let from = match source {
        Some(source) => source,
        None => GeoTraitsModel::unknown(),
    };
    let everyone = all_cap(total, source);
    law_candidates(
        active,
        from.country,
        from.asn,
        total as nat,
        LOOKUP_CANDIDATE_CAP_ASN as nat,
        LOOKUP_CANDIDATE_CAP_COUNTRY as nat,
        everyone as nat,
    );
    let found = active.candidates(
        from.country,
        from.asn,
        total as nat,
        LOOKUP_CANDIDATE_CAP_ASN as nat,
        LOOKUP_CANDIDATE_CAP_COUNTRY as nat,
        everyone as nat,
    );
    assert(at_most(active.recent, least(everyone as nat, total as nat)) == active.recent);
    assert forall|x: Seq<u8>| #[trigger] found.contains(x) implies active.recent.contains(x) by {
        assert(active.recent.to_set().contains(x));
    }
    lemma_no_longer(found, active.recent);
    assert forall|x: Seq<u8>| #[trigger] active.recent.contains(x) implies found.contains(x) by {
    }
    lemma_no_longer(active.recent, found);
    law_active_records_are_those_that_expire_later(host, fp, now);
    assert(active.recent.to_set().contains(fp));
    assert(found.contains(fp));
    let i = found.index_of(fp);
    let answer = memory_records(host, source, limit, now);
    assert(answers_with(answer, i, host.records[fp]));
}

proof fn lemma_no_longer<A>(a: Seq<A>, b: Seq<A>)
    requires
        a.no_duplicates(),
        forall|x: A| #[trigger] a.contains(x) ==> b.contains(x),
    ensures
        a.len() <= b.len(),
    decreases a.len(),
{
    if a.len() > 0 {
        let x = a.last();
        assert(a[a.len() - 1] == x);
        assert(a.contains(x));
        let k = b.index_of(x);
        let rest = b.remove(k);
        let front = a.drop_last();
        assert(front.no_duplicates()) by {
            assert forall|i: int, j: int| 0 <= i < front.len() && 0 <= j < front.len() && i
                != j implies front[i] != front[j] by {
                assert(a[i] != a[j]);
            }
        }
        assert forall|y: A| #[trigger] front.contains(y) implies rest.contains(y) by {
            let i = front.index_of(y);
            assert(a[i] == y);
            assert(a.contains(y));
            assert(y != x);
            let m = b.index_of(y);
            if m < k {
                assert(rest[m] == y);
            } else {
                assert(rest[m - 1] == y);
            }
        }
        lemma_no_longer(front, rest);
    }
}

/// Without a limit, an answer announces what was published and nothing else, and holds every
/// record that is kept whole; with configured records it announces what they announce too.
pub proof fn law_answers_announce_what_was_published(
    dynamic: Seq<LookupModel>,
    source_ip: Option<IpAddress>,
    geo: Option<GeoResolver>,
    key: EndpointKey,
    i: int,
)
    ensures
        announces(lookup_answer(dynamic, None, None, source_ip, geo), key) <==> announces(
            dynamic,
            key,
        ),
        0 <= i < dynamic.len() && !is_split(dynamic[i]) ==> lookup_answer(
            dynamic,
            None,
            None,
            source_ip,
            geo,
        ).contains(dynamic[i]),
{
    let found = ranked_records(normalized(dynamic), source_ip, geo);
    law_ranking_keeps_records_normalized(dynamic, source_ip, geo);
    law_normalizing_keeps_the_endpoints(dynamic, key);
    law_ranking_keeps_the_records(normalized(dynamic), source_ip, geo);
    if 0 <= i < dynamic.len() && !is_split(dynamic[i]) {
        law_whole_records_are_kept(dynamic);
        let k = normalized(dynamic).index_of(dynamic[i]);
        assert(found.contains(normalized(dynamic)[k]));
    }
}

/// The configured records of a host are those that were given for it, in their order.
pub proof fn law_configured_records_are_found_by_host(
    entries: Seq<(Seq<char>, LookupModel)>,
    more: Seq<(Seq<char>, LookupModel)>,
    entry: (Seq<char>, LookupModel),
    host: Seq<char>,
)
    ensures
        seeds_of(entries + more, host) == seeds_of(entries, host) + seeds_of(more, host),
        entry.0 == host ==> seeds_of(seq![entry], host) == seq![entry.1],
        entry.0 != host ==> seeds_of(seq![entry], host).len() == 0,
    decreases more.len(),
{
    if more.len() > 0 {
        law_configured_records_are_found_by_host(entries, more.drop_last(), entry, host);
        assert((entries + more).drop_last() =~= entries + more.drop_last());
        assert((entries + more).last() == more.last());
    } else {
        assert(entries + more =~= entries);
    }
    assert(seeds_of(entries + more, host) =~= seeds_of(entries, host) + seeds_of(more, host));
    reveal_with_fuel(seeds_of, 2);
    assert(seq![entry].drop_last() =~= Seq::<(Seq<char>, LookupModel)>::empty());
    assert(seq![entry].last() == entry);
    if entry.0 == host {
        assert(seeds_of(seq![entry], host) =~= seq![entry.1]);
    }
}

/// A lookup leaves the records of a host that expire later, and drops the others.
pub proof fn law_lookups_drop_what_has_expired(
    storage: MemoryStorage,
    host: Seq<char>,
    now: u128,
    fp: Seq<u8>,
)
    ensures
        after_lookup(storage, host, now).records.dom().contains(fp) <==> storage.host(
            host,
        ).records.dom().contains(fp) && storage.host(host).records[fp].expire > now,
        after_lookup(storage, host, now).records.dom().contains(fp) ==> after_lookup(
            storage,
            host,
            now,
        ).records[fp] == storage.host(host).records[fp],
{
    law_active_records_are_those_that_expire_later(storage.host(host), fp, now);
}

/// What changes for one host changes nothing for another, nor which hosts are blocked.
pub proof fn law_hosts_are_independent(
    before: MemoryStorage,
    after: MemoryStorage,
    host: Seq<char>,
    other: Seq<char>,
)
    requires
        same_but(after, before, host),
        other != host,
    ensures
        after.host(other) == before.host(other),
        after.blacklisted() == before.blacklisted(),
{
    assert(after.hosts().dom().contains(other) <==> after.hosts().remove(host).dom().contains(
        other,
    ));
    assert(before.hosts().dom().contains(other) <==> before.hosts().remove(host).dom().contains(
        other,
    ));
    if before.hosts().dom().contains(other) {
        assert(after.hosts()[other] == after.hosts().remove(host)[other]);
        assert(before.hosts()[other] == before.hosts().remove(host)[other]);
    }
}

} // verus!
