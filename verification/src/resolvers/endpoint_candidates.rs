//! The endpoints of a name, grouped by the certificate chain of their publisher.
use vstd::prelude::*;

use crate::net::{EndpointAddr, Source, SourceModel};
use crate::protocol::certificate::{CertificateChainKey, CertificateSequence};
use crate::protocol::packet::Endpoint;
use crate::protocol::wire::views;

verus! {

/// The endpoints that belong to one certificate chain, and who told of them.
#[derive(Debug, PartialEq, Eq)]
pub struct EndpointCandidateGroup {
    pub chain: CertificateChainKey,
    pub endpoints: Vec<EndpointAddr>,
    pub sources: Vec<Source>,
}

/// The contents of an [`EndpointCandidateGroup`].
pub struct CandidateGroupModel {
    pub chain: CertificateChainKey,
    pub endpoints: Seq<EndpointAddr>,
    pub sources: Seq<SourceModel>,
}

impl View for EndpointCandidateGroup {
    type V = CandidateGroupModel;

    open spec fn view(&self) -> CandidateGroupModel {
        CandidateGroupModel {
            chain: self.chain,
            endpoints: self.endpoints@,
            sources: views(self.sources@),
        }
    }
}

/// The groups of endpoints of a name.
#[derive(Debug, PartialEq, Eq)]
pub struct EndpointCandidates {
    pub groups: Vec<EndpointCandidateGroup>,
}

/// The certificate chains that are asked for.
#[derive(Debug, Clone, Copy, PartialEq, Eq, Structural)]
pub enum SequenceQuery {
    Default,
    Exact(CertificateSequence),
    /// So many chains, at least one.
    Limit(usize),
    All,
}

/// What is asked for.
#[derive(Debug, Clone, Copy, PartialEq, Eq, Structural)]
pub struct EndpointLookup {
    pub sequences: SequenceQuery,
    pub record_limit: Option<usize>,
}

impl Default for EndpointLookup {
    fn default() -> (r: Self)
        ensures
            r == (EndpointLookup { sequences: SequenceQuery::Default, record_limit: None }),
    {
        EndpointLookup { sequences: SequenceQuery::Default, record_limit: None }
    }
}

impl EndpointLookup {
    /// No limit of a lookup is zero.
    pub open spec fn wf(self) -> bool {
        &&& self.sequences matches SequenceQuery::Limit(count) ==> count > 0
        &&& self.record_limit matches Some(count) ==> count > 0
    }

    pub fn exact(sequence: CertificateSequence) -> (r: Self)
        ensures
            r == (EndpointLookup {
                sequences: SequenceQuery::Exact(sequence),
                record_limit: None,
            }),
            r.wf(),
    {
        EndpointLookup { sequences: SequenceQuery::Exact(sequence), record_limit: None }
    }

    pub fn limit(count: usize) -> (r: Self)
        requires
            count > 0,
        ensures
            r == (EndpointLookup { sequences: SequenceQuery::Limit(count), record_limit: None }),
            r.wf(),
    {
        EndpointLookup { sequences: SequenceQuery::Limit(count), record_limit: None }
    }

    pub fn all() -> (r: Self)
        ensures
            r == (EndpointLookup { sequences: SequenceQuery::All, record_limit: None }),
            r.wf(),
    {
        EndpointLookup { sequences: SequenceQuery::All, record_limit: None }
    }

    pub fn with_record_limit(self, count: usize) -> (r: Self)
        requires
            count > 0,
        ensures
            r == (EndpointLookup { record_limit: Some(count), ..self }),
            self.wf() ==> r.wf(),
    {
        EndpointLookup { sequences: self.sequences, record_limit: Some(count) }
    }
}

/// An endpoint record with a tag of its reader.
#[derive(Debug, PartialEq, Eq)]
pub struct TaggedEndpointCandidate<T> {
    pub tag: T,
    pub record: Endpoint,
    /// The certificate chain of the publisher, for a record that does not name one.
    pub fallback_chain_key: Option<CertificateChainKey>,
}

/// The certificate chain that a record belongs to: the one that it names, or else that
/// of its publisher.
pub open spec fn effective_key(
    record: Endpoint,
    fallback_chain_key: Option<CertificateChainKey>,
) -> CertificateChainKey {
    match fallback_chain_key {
        Some(key) => if record.main || record.sequence is Some {
            record.chain_key()
        } else {
            key
        },
        None => record.chain_key(),
    }
}

/// The certificate chain that a record belongs to: the one that it names, or else that
/// of its publisher.
pub fn effective_chain_key(
    record: &Endpoint,
    fallback_chain_key: Option<CertificateChainKey>,
) -> (r: CertificateChainKey)
    ensures
        r == effective_key(*record, fallback_chain_key),
{
    if record.main || record.sequence.is_some() {
        return record.certificate_chain_key();
    }
    match fallback_chain_key {
        Some(key) => key,
        None => record.certificate_chain_key(),
    }
}

impl<T> TaggedEndpointCandidate<T> {
    /// The certificate chain that the record belongs to.
    pub open spec fn key(self) -> CertificateChainKey {
        effective_key(self.record, self.fallback_chain_key)
    }

    /// What a group holds of the record.
    pub open spec fn member(self) -> (T, EndpointAddr) {
        (self.tag, self.record.address())
    }
}

/// Endpoints, grouped by certificate chain.
pub type EndpointCandidateGroups<T> = Vec<(CertificateChainKey, Vec<(T, EndpointAddr)>)>;

/// The certificate chains of some records, in the order in which they first occur.
pub open spec fn chain_keys<T>(records: Seq<TaggedEndpointCandidate<T>>) -> Seq<
    CertificateChainKey,
>
    decreases records.len(),
{
    if records.len() == 0 {
        Seq::empty()
    } else {
        let front = chain_keys(records.drop_last());
        let key = records.last().key();
        if front.contains(key) {
            front
        } else {
            front.push(key)
        }
    }
}

/// The records of one certificate chain, in order.
pub open spec fn chain_members<T>(
    records: Seq<TaggedEndpointCandidate<T>>,
    key: CertificateChainKey,
) -> Seq<(T, EndpointAddr)>
    decreases records.len(),
{
    if records.len() == 0 {
        Seq::empty()
    } else {
        let front = chain_members(records.drop_last(), key);
        if records.last().key() == key {
            front.push(records.last().member())
        } else {
            front
        }
    }
}

/// The contents of grouped endpoints.
pub open spec fn groups_view<T>(groups: Seq<(CertificateChainKey, Vec<(T, EndpointAddr)>)>) -> Seq<
    (CertificateChainKey, Seq<(T, EndpointAddr)>),
> {
    groups.map_values(|g: (CertificateChainKey, Vec<(T, EndpointAddr)>)| (g.0, g.1@))
}

/// Records grouped by certificate chain: the chains in the order in which they first
/// occur, and in each the records of the chain in order.
pub open spec fn grouped<T>(records: Seq<TaggedEndpointCandidate<T>>) -> Seq<
    (CertificateChainKey, Seq<(T, EndpointAddr)>),
> {
    chain_keys(records).map_values(
        |key: CertificateChainKey| (key, chain_members(records, key)),
    )
}

/// No certificate chain occurs twice among those of some records, and a chain occurs
/// exactly where a record belongs to it.
pub proof fn law_chains_are_unique<T>(records: Seq<TaggedEndpointCandidate<T>>)
    ensures
        chain_keys(records).no_duplicates(),
        forall|key: CertificateChainKey| #[trigger]
            chain_keys(records).contains(key) <==> (exists|i: int|
                0 <= i < records.len() && (#[trigger] records[i]).key() == key),
    decreases records.len(),
{
    if records.len() > 0 {
        let front = records.drop_last();
        let keys = chain_keys(front);
        let last = records.last().key();
        law_chains_are_unique(front);
        assert forall|key: CertificateChainKey| #[trigger]
            chain_keys(records).contains(key) <==> (exists|i: int|
                0 <= i < records.len() && (#[trigger] records[i]).key() == key) by {
            if keys.contains(key) {
                let i = choose|i: int| 0 <= i < front.len() && (#[trigger] front[i]).key() == key;
                assert(records[i].key() == key);
                if !keys.contains(last) {
                    let j = keys.index_of(key);
                    assert(keys.push(last)[j] == key);
                }
            }
            if key == last {
                assert(records[records.len() - 1].key() == key);
                if !keys.contains(last) {
                    assert(keys.push(last)[keys.len() as int] == key);
                }
            }
            if chain_keys(records).contains(key) && key != last {
                let j = chain_keys(records).index_of(key);
                assert(keys[j] == key);
            }
            if exists|i: int| 0 <= i < records.len() && (#[trigger] records[i]).key() == key {
                let i = choose|i: int|
                    0 <= i < records.len() && (#[trigger] records[i]).key() == key;
                if i < front.len() {
                    assert(front[i].key() == key);
                }
            }
        }
    }
}

/// Every record is in the group of its certificate chain, and no group is empty.
pub proof fn law_every_record_is_in_its_group<T>(
    records: Seq<TaggedEndpointCandidate<T>>,
    i: int,
)
    requires
        0 <= i < records.len(),
    ensures
        chain_keys(records).contains(records[i].key()),
        chain_members(records, records[i].key()).contains(records[i].member()),
        chain_members(records, records[i].key()).len() > 0,
    decreases records.len(),
{
    law_chains_are_unique(records);
    let key = records[i].key();
    let front = records.drop_last();
    let members = chain_members(records, key);
    if i == records.len() - 1 {
        assert(members[members.len() - 1] == records[i].member());
    } else {
        law_every_record_is_in_its_group(front, i);
        let before = chain_members(front, key);
        let j = before.index_of(records[i].member());
        assert(members[j] == records[i].member());
    }
}

/// A certificate chain that no record belongs to has no members.
pub proof fn lemma_no_members<T>(
    records: Seq<TaggedEndpointCandidate<T>>,
    key: CertificateChainKey,
)
    requires
        !chain_keys(records).contains(key),
    ensures
        chain_members(records, key) == Seq::<(T, EndpointAddr)>::empty(),
    decreases records.len(),
{
    law_chains_are_unique(records);
    if records.len() > 0 {
        law_chains_are_unique(records.drop_last());
        assert(records[records.len() - 1].key() != key);
        assert(!chain_keys(records.drop_last()).contains(key)) by {
            if chain_keys(records.drop_last()).contains(key) {
                let i = choose|i: int|
                    0 <= i < records.drop_last().len() && (#[trigger] records.drop_last()[i]).key()
                        == key;
                assert(records[i].key() == key);
            }
        }
        lemma_no_members(records.drop_last(), key);
    }
}

/// Groups records by certificate chain.
pub fn grouped_endpoint_candidates<T>(records: Vec<TaggedEndpointCandidate<T>>) -> (r:
    EndpointCandidateGroups<T>)
    ensures
        groups_view(r@) == grouped(records@),
{
    let ghost all = records@;
    let mut groups: EndpointCandidateGroups<T> = Vec::new();
    assert(groups_view(groups@) =~= grouped(all.take(0)));
    for candidate in iter: records
        invariant
            iter.seq() == all,
            groups_view(groups@) == grouped(all.take(iter.index())),
    {
        let ghost n = iter.index();
        let ghost done = all.take(n);
        let ghost next = all.take(n + 1);
        proof {
            assert(next.drop_last() =~= done);
            assert(next.last() == all[n]);
            assert(candidate == all[n]);
        }
        let key = effective_chain_key(&candidate.record, candidate.fallback_chain_key);
        let endpoint = candidate.record.endpoint_addr();
        let ghost member = candidate.member();
        let mut i: usize = 0;
        while i < groups.len() && groups[i].0 != key
            invariant
                i <= groups@.len(),
                forall|j: int| 0 <= j < i ==> (#[trigger] groups@[j]).0 != key,
            decreases groups@.len() - i,
        {
            i = i + 1;
        }
        let ghost before = groups@;
        proof {
            assert(groups_view(before).len() == before.len());
            assert forall|j: int| 0 <= j < before.len() implies #[trigger] chain_keys(done)[j]
                == before[j].0 by {
                assert(groups_view(before)[j] == grouped(done)[j]);
            }
            law_chains_are_unique(done);
        }
        if i < groups.len() {
            assert(chain_keys(done)[i as int] == key);
            assert(chain_keys(done).contains(key));
            let mut group = groups.remove(i);
            group.1.push((candidate.tag, endpoint));
            groups.insert(i, group);
            assert(groups_view(groups@) =~= grouped(next)) by {
                assert forall|j: int| 0 <= j < before.len() implies #[trigger] groups_view(
                    groups@,
                )[j] == grouped(next)[j] by {
                    assert(groups_view(before)[j] == grouped(done)[j]);
                    if j != i {
                        assert(chain_keys(done)[j] != chain_keys(done)[i as int]);
                    }
                }
            }
        } else {
            assert(!chain_keys(done).contains(key)) by {
                if chain_keys(done).contains(key) {
                    let j = chain_keys(done).index_of(key);
                    assert(before[j].0 == key);
                }
            }
            proof {
                lemma_no_members(done, key);
            }
            let mut members: Vec<(T, EndpointAddr)> = Vec::new();
            members.push((candidate.tag, endpoint));
            assert(members@ =~= Seq::<(T, EndpointAddr)>::empty().push(member));
            groups.push((key, members));
            assert(groups_view(groups@) =~= grouped(next)) by {
                assert forall|j: int| 0 <= j < before.len() implies #[trigger] groups_view(
                    groups@,
                )[j] == grouped(next)[j] by {
                    assert(groups_view(before)[j] == grouped(done)[j]);
                }
            }
        }
    }
    assert(all.take(all.len() as int) =~= all);
    groups
}

/// The endpoints of grouped records, with the same source for each.
pub open spec fn sourced_groups(
    groups: Seq<(CertificateChainKey, Seq<((), EndpointAddr)>)>,
    source: SourceModel,
) -> Seq<CandidateGroupModel> {
    groups.map_values(
        |g: (CertificateChainKey, Seq<((), EndpointAddr)>)|
            CandidateGroupModel { chain: g.0, endpoints: addresses(g.1), sources: seq![source] },
    )
}

/// The endpoints of some members.
pub open spec fn addresses<T>(members: Seq<(T, EndpointAddr)>) -> Seq<EndpointAddr> {
    members.map_values(|m: (T, EndpointAddr)| m.1)
}

/// The endpoints of some members.
pub fn member_addresses<T>(members: &Vec<(T, EndpointAddr)>) -> (r: Vec<EndpointAddr>)
    ensures
        r@ == addresses(members@),
{
    let mut out: Vec<EndpointAddr> = Vec::new();
    let mut i: usize = 0;
    while i < members.len()
        invariant
            i <= members@.len(),
            out@ == addresses(members@).take(i as int),
        decreases members@.len() - i,
    {
        out.push(members[i].1);
        assert(out@ =~= addresses(members@).take(i + 1));
        i = i + 1;
    }
    assert(addresses(members@).take(i as int) =~= addresses(members@));
    out
}

/// The groups that one server told of.
pub fn server_groups(groups: &EndpointCandidateGroups<()>, source: &Source) -> (r:
    EndpointCandidates)
    ensures
        views(r.groups@) == sourced_groups(groups_view(groups@), source@),
{
    let ghost wanted = sourced_groups(groups_view(groups@), source@);
    let mut out: Vec<EndpointCandidateGroup> = Vec::new();
    let mut i: usize = 0;
    while i < groups.len()
        invariant
            i <= groups@.len(),
            wanted == sourced_groups(groups_view(groups@), source@),
            out@.len() == i,
            forall|j: int| 0 <= j < i ==> (#[trigger] out@[j])@ == wanted[j],
        decreases groups@.len() - i,
    {
        let endpoints = member_addresses(&groups[i].1);
        let mut sources: Vec<Source> = Vec::new();
        sources.push(source.clone());
        assert(views(sources@) =~= seq![source@]);
        out.push(EndpointCandidateGroup { chain: groups[i].0, endpoints, sources });
        i = i + 1;
    }
    assert(views(out@) =~= wanted);
    EndpointCandidates { groups: out }
}

/// A record that names a chain belongs to it, whoever published it. Any other record belongs
/// to the chain of its publisher, where that is known.
pub proof fn law_records_belong_to_the_chain_that_they_name(
    record: Endpoint,
    publisher: CertificateChainKey,
)
    ensures
        effective_key(record, None) == record.chain_key(),
        record.main ==> effective_key(record, Some(publisher)) == record.chain_key(),
        record.sequence is Some ==> effective_key(record, Some(publisher)) == record.chain_key(),
        !record.main && record.sequence is None ==> effective_key(record, Some(publisher))
            == publisher,
{
}

/// The members of a chain are the records of the chain and no others, in their order, each
/// with its tag and the address that it is reached at.
pub proof fn law_members_of_a_chain_stay_in_order<T>(
    records: Seq<TaggedEndpointCandidate<T>>,
    more: Seq<TaggedEndpointCandidate<T>>,
    record: TaggedEndpointCandidate<T>,
    key: CertificateChainKey,
)
    ensures
        chain_members(records + more, key) == chain_members(records, key) + chain_members(
            more,
            key,
        ),
        effective_key(record.record, record.fallback_chain_key) == key ==> chain_members(
            seq![record],
            key,
        ) == seq![(record.tag, record.record.address())],
        effective_key(record.record, record.fallback_chain_key) != key ==> chain_members(
            seq![record],
            key,
        ).len() == 0,
    decreases more.len(),
{
    if more.len() > 0 {
        law_members_of_a_chain_stay_in_order(records, more.drop_last(), record, key);
        assert((records + more).drop_last() =~= records + more.drop_last());
        assert((records + more).last() == more.last());
    } else {
        assert(records + more =~= records);
    }
    assert(chain_members(records + more, key) =~= chain_members(records, key) + chain_members(
        more,
        key,
    ));
    reveal_with_fuel(chain_members, 2);
    assert(seq![record].drop_last() =~= Seq::<TaggedEndpointCandidate<T>>::empty());
    assert(seq![record].last() == record);
    assert(chain_members(Seq::<TaggedEndpointCandidate<T>>::empty(), key) =~= Seq::<
        (T, EndpointAddr),
    >::empty());
    if record.key() == key {
        assert(chain_members(seq![record], key) =~= seq![(record.tag, record.record.address())]);
    }
}

/// Chains come in the order in which records first name them: more records add chains behind
/// those that are known.
pub proof fn law_chains_come_in_the_order_of_their_first_records<T>(
    records: Seq<TaggedEndpointCandidate<T>>,
    more: Seq<TaggedEndpointCandidate<T>>,
)
    ensures
        chain_keys(records).len() <= chain_keys(records + more).len(),
        forall|i: int|
            0 <= i < chain_keys(records).len() ==> #[trigger] chain_keys(records + more)[i]
                == chain_keys(records)[i],
    decreases more.len(),
{
    if more.len() > 0 {
        law_chains_come_in_the_order_of_their_first_records(records, more.drop_last());
        assert((records + more).drop_last() =~= records + more.drop_last());
        let front = chain_keys(records + more.drop_last());
        assert forall|i: int| 0 <= i < chain_keys(records).len() implies #[trigger] chain_keys(
            records + more,
        )[i] == chain_keys(records)[i] by {
            assert(chain_keys(records + more)[i] == front[i]);
        }
    } else {
        assert(records + more =~= records);
    }
}

/// Every group holds the members of its chain, there is one group for each chain, and every
/// record is found in the group of the chain that it belongs to.
pub proof fn law_groups_hold_the_members_of_their_chain<T>(
    records: Seq<TaggedEndpointCandidate<T>>,
    i: int,
    j: int,
)
    requires
        0 <= i < grouped(records).len(),
        0 <= j < grouped(records).len(),
    ensures
        grouped(records)[i].1 == chain_members(records, grouped(records)[i].0),
        grouped(records)[i].1.len() > 0,
        i != j ==> grouped(records)[i].0 != grouped(records)[j].0,
        forall|n: int|
            0 <= n < records.len() ==> exists|k: int|
                0 <= k < grouped(records).len() && (#[trigger] grouped(records)[k]).0
                    == effective_key(
                    (#[trigger] records[n]).record,
                    records[n].fallback_chain_key,
                ),
{
    law_chains_are_unique(records);
    let key = chain_keys(records)[i];
    assert(chain_keys(records).contains(key));
    let n = choose|n: int| 0 <= n < records.len() && (#[trigger] records[n]).key() == key;
    law_every_record_is_in_its_group(records, n);
    assert forall|n: int| 0 <= n < records.len() implies exists|k: int|
        0 <= k < grouped(records).len() && (#[trigger] grouped(records)[k]).0 == effective_key(
            (#[trigger] records[n]).record,
            records[n].fallback_chain_key,
        ) by {
        law_every_record_is_in_its_group(records, n);
        let k = chain_keys(records).index_of(records[n].key());
        assert(grouped(records)[k].0 == records[n].key());
    }
}

/// A server is the one source of the groups that it tells of, and nothing else in them is
/// changed.
pub proof fn law_groups_of_a_server_have_it_as_their_source(
    groups: Seq<(CertificateChainKey, Seq<((), EndpointAddr)>)>,
    source: SourceModel,
    i: int,
    n: int,
)
    ensures
        sourced_groups(groups, source).len() == groups.len(),
        0 <= i < groups.len() ==> {
            let group = sourced_groups(groups, source)[i];
            &&& group.chain == groups[i].0
            &&& group.sources.len() == 1
            &&& group.sources[0] == source
            &&& group.endpoints.len() == groups[i].1.len()
            &&& 0 <= n < groups[i].1.len() ==> group.endpoints[n] == groups[i].1[n].1
        },
{
}

/// Groups are told with their chain and their members, in order.
pub proof fn law_groups_are_told_as_they_are<T>(
    groups: Seq<(CertificateChainKey, Vec<(T, EndpointAddr)>)>,
    i: int,
)
    ensures
        groups_view(groups).len() == groups.len(),
        0 <= i < groups.len() ==> groups_view(groups)[i].0 == groups[i].0 && groups_view(
            groups,
        )[i].1 == groups[i].1@,
{
}

} // verus!
