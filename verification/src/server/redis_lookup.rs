//! A lookup in a Redis store: which query comes next, and what its reply changes.
use vstd::prelude::*;

use crate::protocol::wire::{lemma_views_push, views, ResponseRecord, ResponseRecordModel};
use crate::server::geo::{GeoTraits, GeoTraitsModel};
use crate::server::query::{
    all_candidate_cap, all_cap, candidate_total_cap, push_unique_candidates, total_cap,
    LOOKUP_CANDIDATE_CAP_ASN, LOOKUP_CANDIDATE_CAP_COUNTRY,
};
use crate::server::storage::{
    all_key, asn_key, country_key, decode_stored, law_stored_record_round_trip, lemma_push_unique,
    primary_key, push_unique, redis_all_index_key, redis_asn_index_key, redis_blacklist_key,
    redis_country_index_key, redis_primary_key, StoredModel, StoredRecord,
};

verus! {

/// A query to the store.
#[derive(Debug, PartialEq, Eq)]
pub enum RedisQuery {
    /// Whether the set holds the member.
    IsMember { key: String, member: String },
    /// The members of the sorted set from the highest score down to the one at `stop`.
    Range { key: String, stop: usize },
    /// The value of the key.
    Get { key: String },
}

/// The contents of a [`RedisQuery`].
pub enum QueryModel {
    IsMember { key: Seq<char>, member: Seq<char> },
    Range { key: Seq<char>, stop: usize },
    Get { key: Seq<char> },
}

impl View for RedisQuery {
    type V = QueryModel;

    open spec fn view(&self) -> QueryModel {
        match *self {
            RedisQuery::IsMember { key, member } => QueryModel::IsMember {
                key: key@,
                member: member@,
            },
            RedisQuery::Range { key, stop } => QueryModel::Range { key: key@, stop },
            RedisQuery::Get { key } => QueryModel::Get { key: key@ },
        }
    }
}

/// The reply to a query of the same kind.
#[derive(Debug, PartialEq, Eq)]
pub enum RedisReply {
    IsMember(bool),
    Range(Vec<String>),
    Get(Option<Vec<u8>>),
}

/// The contents of a [`RedisReply`].
pub enum ReplyModel {
    IsMember(bool),
    Range(Seq<Seq<char>>),
    Get(Option<Seq<u8>>),
}

impl View for RedisReply {
    type V = ReplyModel;

    open spec fn view(&self) -> ReplyModel {
        match *self {
            RedisReply::IsMember(member) => ReplyModel::IsMember(member),
            RedisReply::Range(members) => ReplyModel::Range(views(members@)),
            RedisReply::Get(value) => ReplyModel::Get(
                match value {
                    Some(value) => Some(value@),
                    None => None,
                },
            ),
        }
    }
}

/// How far a lookup has come.
#[derive(Debug, Clone, Copy, PartialEq, Eq, Structural)]
pub enum LookupPhase {
    /// Is the host looked up at all?
    Blacklist,
    /// The index with this number is read.
    Range(usize),
    /// The record of the candidate with this number is read.
    Get(usize),
    /// The lookup is done.
    Found,
    /// The host is not looked up.
    Blocked,
}

/// A lookup under way.
#[derive(Debug, PartialEq, Eq)]
pub struct RedisLookup {
    pub host: String,
    pub total: usize,
    /// The seconds since the Unix epoch.
    pub now: u64,
    /// The indexes to read and the last place to read in each.
    pub ranges: Vec<(String, usize)>,
    pub phase: LookupPhase,
    pub candidates: Vec<String>,
    pub records: Vec<ResponseRecord>,
}

/// The contents of a [`RedisLookup`].
#[verifier::ext_equal]
pub struct RedisLookupModel {
    pub host: Seq<char>,
    pub total: usize,
    pub now: u64,
    pub ranges: Seq<(Seq<char>, usize)>,
    pub phase: LookupPhase,
    pub candidates: Seq<Seq<char>>,
    pub records: Seq<ResponseRecordModel>,
}

impl View for RedisLookup {
    type V = RedisLookupModel;

    open spec fn view(&self) -> RedisLookupModel {
        RedisLookupModel {
            host: self.host@,
            total: self.total,
            now: self.now,
            ranges: self.ranges@.map_values(|r: (String, usize)| (r.0@, r.1)),
            phase: self.phase,
            candidates: views(self.candidates@),
            records: views(self.records@),
        }
    }
}

/// The indexes that a lookup reads: that of the autonomous system of the client, that
/// of its country, and that of all publishers.
pub open spec fn index_ranges(host: Seq<char>, source: Option<GeoTraitsModel>, total: usize) -> Seq<
    (Seq<char>, usize),
> {
    let from = match source {
        Some(source) => source,
        None => GeoTraitsModel::unknown(),
    };
    let near = match from.asn {
        Some(asn) => seq![(asn_key(host, asn), (LOOKUP_CANDIDATE_CAP_ASN - 1) as usize)],
        None => Seq::empty(),
    };
    let home = match from.country {
        Some(country) => seq![
            (country_key(host, country), (LOOKUP_CANDIDATE_CAP_COUNTRY - 1) as usize),
        ],
        None => Seq::empty(),
    };
    near + home + seq![(all_key(host), (all_cap(total, source) - 1) as usize)]
}

/// The record in a stored value, where there is one that is not stale.
pub open spec fn fresh_record(value: Option<Seq<u8>>, now: u64) -> Option<ResponseRecordModel> {
    match value {
        Some(data) => match decode_stored(data) {
            Some(record) => if record.expire_unix_secs > now {
                Some(
                    ResponseRecordModel {
                        signature_fields: record.signature_fields,
                        dns: record.dns,
                        cert: record.cert,
                    },
                )
            } else {
                None
            },
            None => None,
        },
        None => None,
    }
}

impl RedisLookupModel {
    /// A lookup that has not begun.
    pub open spec fn start(
        host: Seq<char>,
        limit: Option<usize>,
        source: Option<GeoTraitsModel>,
        now: u64,
    ) -> Self {
        RedisLookupModel {
            host,
            total: total_cap(limit),
            now,
            ranges: index_ranges(host, source, total_cap(limit)),
            phase: LookupPhase::Blacklist,
            candidates: Seq::empty(),
            records: Seq::empty(),
        }
    }

    /// The phase fits what there is to read, and no candidate is there twice.
    pub open spec fn wf(self) -> bool {
        &&& 0 < self.ranges.len() <= 3
        &&& self.candidates.no_duplicates()
        &&& self.candidates.len() <= self.total
        &&& match self.phase {
            LookupPhase::Range(i) => i < self.ranges.len(),
            LookupPhase::Get(i) => i < self.candidates.len(),
            _ => true,
        }
    }

    /// The next query, until the lookup is done.
    pub open spec fn query(self) -> Option<QueryModel> {
        match self.phase {
            LookupPhase::Blacklist => Some(
                QueryModel::IsMember { key: "ddns:blacklist"@, member: self.host },
            ),
            LookupPhase::Range(i) => Some(
                QueryModel::Range { key: self.ranges[i as int].0, stop: self.ranges[i as int].1 },
            ),
            LookupPhase::Get(i) => Some(
                QueryModel::Get { key: primary_key(self.host, self.candidates[i as int]) },
            ),
            LookupPhase::Found => None,
            LookupPhase::Blocked => None,
        }
    }

    /// Whether this is a reply to the next query.
    pub open spec fn expects(self, reply: ReplyModel) -> bool {
        match self.phase {
            LookupPhase::Blacklist => reply is IsMember,
            LookupPhase::Range(_) => reply is Range,
            LookupPhase::Get(_) => reply is Get,
            _ => false,
        }
    }

    /// Once the reply to the next query is there.
    pub open spec fn step(self, reply: ReplyModel) -> Self {
        match (self.phase, reply) {
            (LookupPhase::Blacklist, ReplyModel::IsMember(blocked)) => RedisLookupModel {
                phase: if blocked {
                    LookupPhase::Blocked
                } else {
                    LookupPhase::Range(0)
                },
                ..self
            },
            (LookupPhase::Range(i), ReplyModel::Range(members)) => {
                let candidates = push_unique(self.candidates, members, self.total as nat);
                RedisLookupModel {
                    candidates,
                    phase: if i + 1 < self.ranges.len() {
                        LookupPhase::Range((i + 1) as usize)
                    } else if candidates.len() > 0 {
                        LookupPhase::Get(0)
                    } else {
                        LookupPhase::Found
                    },
                    ..self
                }
            },
            (LookupPhase::Get(i), ReplyModel::Get(value)) => RedisLookupModel {
                records: match fresh_record(value, self.now) {
                    Some(record) => self.records.push(record),
                    None => self.records,
                },
                phase: if i + 1 < self.candidates.len() {
                    LookupPhase::Get((i + 1) as usize)
                } else {
                    LookupPhase::Found
                },
                ..self
            },
            _ => self,
        }
    }

    /// How many queries are left at most.
    pub open spec fn queries_left(self) -> int {
        match self.phase {
            LookupPhase::Blacklist => self.ranges.len() + self.total + 1,
            LookupPhase::Range(i) => self.ranges.len() - i + self.total,
            LookupPhase::Get(i) => self.candidates.len() - i,
            _ => 0,
        }
    }
}

/// A lookup stays well formed, and with every reply fewer queries are left: it ends
/// after at most one query for the host, one for each index and one for each of the
/// candidates.
pub proof fn law_lookup_ends(lookup: RedisLookupModel, reply: ReplyModel)
    requires
        lookup.wf(),
        lookup.expects(reply),
    ensures
        lookup.step(reply).wf(),
        0 <= lookup.step(reply).queries_left() < lookup.queries_left(),
        lookup.step(reply).query() is None <==> lookup.step(reply).queries_left() == 0,
{
    if let ReplyModel::Range(members) = reply {
        lemma_push_unique(lookup.candidates, members, lookup.total as nat);
    }
}

/// A host that is not looked up gets no records, whatever else is stored.
pub proof fn law_blacklisted_host_is_blocked(
    host: Seq<char>,
    limit: Option<usize>,
    source: Option<GeoTraitsModel>,
    now: u64,
)
    ensures
        RedisLookupModel::start(host, limit, source, now).step(ReplyModel::IsMember(true)).phase
            == LookupPhase::Blocked,
        RedisLookupModel::start(host, limit, source, now).step(
            ReplyModel::IsMember(true),
        ).query() is None,
{
}

impl RedisLookup {
    /// A lookup that has not begun. `now` is in seconds since the Unix epoch.
    pub fn new(host: String, limit: Option<usize>, source: Option<&GeoTraits>, now: u64) -> (r:
        Self)
        ensures
            r@ == RedisLookupModel::start(
                host@,
                limit,
                match source {
                    Some(traits) => Some(traits@),
                    None => None,
                },
                now,
            ),
            r@.wf(),
    {
        let total = candidate_total_cap(limit);
        let all = all_candidate_cap(total, source);
        let mut ranges: Vec<(String, usize)> = Vec::new();
        if let Some(traits) = source {
            if let Some(asn) = traits.asn {
                ranges.push(
                    (redis_asn_index_key(host.as_str(), asn), LOOKUP_CANDIDATE_CAP_ASN - 1),
                );
            }
            if let Some(country) = &traits.country {
                ranges.push(
                    (
                        redis_country_index_key(host.as_str(), country.as_str()),
                        LOOKUP_CANDIDATE_CAP_COUNTRY - 1,
                    ),
                );
            }
        }
        ranges.push((redis_all_index_key(host.as_str()), all - 1));
        let lookup = RedisLookup {
            host,
            total,
            now,
            ranges,
            phase: LookupPhase::Blacklist,
            candidates: Vec::new(),
            records: Vec::new(),
        };
        proof {
            let model = RedisLookupModel::start(
                host@,
                limit,
                match source {
                    Some(traits) => Some(traits@),
                    None => None,
                },
                now,
            );
            assert(lookup@.ranges =~= model.ranges);
            assert(lookup@.candidates =~= model.candidates);
            assert(lookup@.records =~= model.records);
        }
        lookup
    }

    /// The next query, until the lookup is done.
    pub fn next_query(&self) -> (r: Option<RedisQuery>)
        requires
            self@.wf(),
        ensures
            (match r {
                Some(query) => Some(query@),
                None => None,
            }) == self@.query(),
    {
        match self.phase {
            LookupPhase::Blacklist => Some(
                RedisQuery::IsMember {
                    key: redis_blacklist_key().to_owned(),
                    member: self.host.clone(),
                },
            ),
            LookupPhase::Range(i) => {
                assert(self@.ranges[i as int] == (self.ranges@[i as int].0@, self.ranges@[i as int].1));
                Some(RedisQuery::Range { key: self.ranges[i].0.clone(), stop: self.ranges[i].1 })
            },
            LookupPhase::Get(i) => {
                assert(self@.candidates[i as int] == self.candidates@[i as int]@);
                Some(
                    RedisQuery::Get {
                        key: redis_primary_key(self.host.as_str(), self.candidates[i].as_str()),
                    },
                )
            },
            LookupPhase::Found => None,
            LookupPhase::Blocked => None,
        }
    }

    /// Takes the reply to the next query.
    pub fn on_reply(&mut self, reply: RedisReply)
        requires
            old(self)@.wf(),
            old(self)@.expects(reply@),
        ensures
            final(self)@ == old(self)@.step(reply@),
            final(self)@.wf(),
    {
        proof {
            law_lookup_ends(self@, reply@);
        }
        match (self.phase, reply) {
            (LookupPhase::Blacklist, RedisReply::IsMember(blocked)) => {
                self.phase = if blocked {
                    LookupPhase::Blocked
                } else {
                    LookupPhase::Range(0)
                };
            },
            (LookupPhase::Range(i), RedisReply::Range(members)) => {
                push_unique_candidates(&mut self.candidates, members, self.total);
                self.phase = if i + 1 < self.ranges.len() {
                    LookupPhase::Range(i + 1)
                } else if self.candidates.len() > 0 {
                    LookupPhase::Get(0)
                } else {
                    LookupPhase::Found
                };
            },
            (LookupPhase::Get(i), RedisReply::Get(value)) => {
                if let Some(data) = value {
                    if let Some(record) = StoredRecord::decode(data.as_slice()) {
                        if record.expire_unix_secs > self.now {
                            let fresh = ResponseRecord::new(
                                record.signature_fields,
                                record.dns,
                                record.cert,
                            );
                            proof {
                                lemma_views_push(self.records@, fresh);
                            }
                            self.records.push(fresh);
                        }
                    }
                }
                self.phase = if i + 1 < self.candidates.len() {
                    LookupPhase::Get(i + 1)
                } else {
                    LookupPhase::Found
                };
            },
            _ => {},
        }
    }
}

/// A stored record is used until it expires, as it was stored. Anything else that is stored is
/// not used.
pub proof fn law_stored_records_are_used_until_they_expire(
    record: StoredModel,
    data: Seq<u8>,
    now: u64,
)
    requires
        record.fits(),
        record.fingerprint.len() == 32,
    ensures
        fresh_record(Some(record.encoding()), now) is Some <==> now < record.expire_unix_secs,
        fresh_record(Some(record.encoding()), now) matches Some(read) ==> {
            &&& read.signature_fields == record.signature_fields
            &&& read.dns == record.dns
            &&& read.cert == record.cert
        },
        fresh_record(None, now) is None,
        decode_stored(data) is None ==> fresh_record(Some(data), now) is None,
{
    law_stored_record_round_trip(record);
}

/// The indexes are read in order: that of the autonomous system of the client, that of its
/// country, each where it is known, and that of all publishers. Of the last one as many are
/// read as there is room for beside those near the client.
pub proof fn law_indexes_near_the_client_are_read_first(
    host: Seq<char>,
    source: GeoTraitsModel,
    total: usize,
)
    requires
        total >= 64,
    ensures
        ({
            let ranges = index_ranges(host, Some(source), total);
            let last = ranges[ranges.len() - 1];
            &&& last.0 == all_key(host)
            &&& source.asn is Some || source.country is Some ==> last.1 == 31
            &&& source.asn is None && source.country is None ==> last.1 == total - 1
            &&& source.asn matches Some(asn) ==> ranges[0].0 == asn_key(host, asn) && ranges[0].1
                == 15
            &&& source.country matches Some(country) ==> ranges[ranges.len() - 2].0 == country_key(
                host,
                country,
            ) && ranges[ranges.len() - 2].1 == 15
            &&& ranges.len() == 1 + (if source.asn is Some {
                1int
            } else {
                0
            }) + (if source.country is Some {
                1int
            } else {
                0
            })
        }),
        index_ranges(host, None, total).len() == 1,
        index_ranges(host, None, total)[0].0 == all_key(host),
        index_ranges(host, None, total)[0].1 == total - 1,
{
}

/// What a lookup asks for in turn: whether the host is blocked, the indexes in their order, and
/// the record of every publisher that they name.
pub proof fn law_lookups_ask_in_turn(
    lookup: RedisLookupModel,
    members: Seq<Seq<char>>,
    value: Option<Seq<u8>>,
    i: int,
)
    requires
        lookup.wf(),
    ensures
        lookup.phase is Blacklist ==> lookup.step(ReplyModel::IsMember(false)).query() == Some(
            QueryModel::Range { key: lookup.ranges[0].0, stop: lookup.ranges[0].1 },
        ),
        lookup.phase matches LookupPhase::Range(at) ==> {
            let after = lookup.step(ReplyModel::Range(members));
            &&& at + 1 < lookup.ranges.len() ==> after.query() == Some(
                QueryModel::Range {
                    key: lookup.ranges[at + 1].0,
                    stop: lookup.ranges[at + 1].1,
                },
            )
            &&& at + 1 == lookup.ranges.len() && after.candidates.len() > 0 ==> after.query()
                == Some(QueryModel::Get { key: primary_key(lookup.host, after.candidates[0]) })
            &&& at + 1 == lookup.ranges.len() && after.candidates.len() == 0 ==> after.query() is
                None
            &&& 0 <= i < members.len() && after.candidates.len() < lookup.total
                ==> after.candidates.contains(members[i])
            &&& 0 <= i < lookup.candidates.len() ==> after.candidates[i] == lookup.candidates[i]
            &&& 0 <= i < after.candidates.len() ==> lookup.candidates.contains(
                after.candidates[i],
            ) || members.contains(after.candidates[i])
        },
        lookup.phase matches LookupPhase::Get(at) ==> {
            let after = lookup.step(ReplyModel::Get(value));
            &&& after.candidates == lookup.candidates
            &&& at + 1 < lookup.candidates.len() ==> after.query() == Some(
                QueryModel::Get { key: primary_key(lookup.host, lookup.candidates[at + 1]) },
            )
            &&& at + 1 == lookup.candidates.len() ==> after.query() is None && after.phase
                == LookupPhase::Found
        },
{
    lemma_push_unique(lookup.candidates, members, lookup.total as nat);
    let after = push_unique(lookup.candidates, members, lookup.total as nat);
    assert(lookup.candidates =~= after.take(lookup.candidates.len() as int));
    if 0 <= i < lookup.candidates.len() {
        assert(after[i] == after.take(lookup.candidates.len() as int)[i]);
    }
    if 0 <= i < members.len() {
        assert(members.contains(members[i]));
    }
    if 0 <= i < after.len() {
        assert(after.contains(after[i]));
    }
}

/// A lookup asks first whether the host is blocked.
pub proof fn law_lookups_ask_first_whether_the_host_is_blocked(
    host: Seq<char>,
    limit: Option<usize>,
    source: Option<GeoTraitsModel>,
    now: u64,
)
    ensures
        RedisLookupModel::start(host, limit, source, now).query() == Some(
            QueryModel::IsMember { key: "ddns:blacklist"@, member: host },
        ),
{
}

/// Every query is the one of its own kind.
pub proof fn law_queries_are_of_their_own_kind(query: RedisQuery)
    ensures
        query matches RedisQuery::IsMember { key, member } ==> query@ == (QueryModel::IsMember {
            key: key@,
            member: member@,
        }),
        query matches RedisQuery::Range { key, stop } ==> query@ == (QueryModel::Range {
            key: key@,
            stop,
        }),
        query matches RedisQuery::Get { key } ==> query@ == (QueryModel::Get { key: key@ }),
{
}

/// A lookup starts with nothing, and with room for as many publishers as it may answer with.
pub proof fn law_lookups_start_with_nothing(
    host: Seq<char>,
    limit: Option<usize>,
    source: Option<GeoTraitsModel>,
    now: u64,
)
    ensures
        ({
            let start = RedisLookupModel::start(host, limit, source, now);
            &&& start.host == host
            &&& start.now == now
            &&& start.total >= 64
            &&& limit matches Some(limit) ==> start.total >= limit
            &&& start.candidates.len() == 0
            &&& start.records.len() == 0
            &&& start.ranges.len() >= 1
            &&& start.ranges[start.ranges.len() - 1].0 == all_key(host)
        }),
{
}

} // verus!
