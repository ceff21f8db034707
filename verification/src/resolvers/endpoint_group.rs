//! The endpoints of one certificate chain of a name.
use vstd::prelude::*;

use crate::net::EndpointAddr;
use crate::protocol::certificate::{
    is_primary_chain_key, CertificateChainKey, CertificateChainKind, CertificateSequence,
};
use crate::protocol::packet::Endpoint;
use crate::resolvers::endpoint_candidates::{
    addresses, chain_keys, chain_members, effective_key, grouped, grouped_endpoint_candidates,
    groups_view, law_chains_are_unique, law_every_record_is_in_its_group,
    law_members_of_a_chain_stay_in_order, lemma_no_members, member_addresses,
    EndpointCandidateGroups, TaggedEndpointCandidate,
};

verus! {

pub open spec fn primary_key(sequence: CertificateSequence) -> CertificateChainKey {
    CertificateChainKey { sequence, kind: CertificateChainKind::Primary }
}

/// The members of the certificate chain that is selected: the primary chain with the
/// sequence, or, without a sequence, the chain of the first record.
pub open spec fn selected_members<T>(
    records: Seq<TaggedEndpointCandidate<T>>,
    sequence: Option<CertificateSequence>,
) -> Seq<(T, EndpointAddr)> {
    match sequence {
        Some(sequence) => chain_members(records, primary_key(sequence)),
        None => if records.len() == 0 {
            Seq::empty()
        } else {
            chain_members(records, records[0].key())
        },
    }
}

/// The first certificate chain of some records is that of the first record.
pub proof fn lemma_first_chain<T>(records: Seq<TaggedEndpointCandidate<T>>)
    requires
        records.len() > 0,
    ensures
        chain_keys(records).len() > 0,
        chain_keys(records)[0] == records[0].key(),
    decreases records.len(),
{
    if records.len() > 1 {
        lemma_first_chain(records.drop_last());
    } else {
        assert(chain_keys(records.drop_last()).len() == 0);
    }
}

/// The group that is selected.
pub fn select_group<T>(
    groups: EndpointCandidateGroups<T>,
    sequence: Option<CertificateSequence>,
) -> (r: Vec<(T, EndpointAddr)>)
    ensures
        forall|records: Seq<TaggedEndpointCandidate<T>>|
            groups_view(groups@) == #[trigger] grouped(records) ==> r@ == selected_members(
                records,
                sequence,
            ),
{
    let ghost all = groups_view(groups@);
    let ghost given = groups@;
    assert(forall|j: int|
        0 <= j < given.len() ==> #[trigger] all[j] == (given[j].0, given[j].1@));
    match sequence {
        Some(sequence) => {
            let mut i: usize = 0;
            while i < groups.len() && !(is_primary_chain_key(&groups[i].0) && groups[i].0.sequence
                == sequence)
                invariant
                    i <= groups@.len(),
                    forall|j: int|
                        0 <= j < i ==> (#[trigger] groups@[j]).0 != primary_key(sequence),
                decreases groups@.len() - i,
            {
                i = i + 1;
            }
            if i < groups.len() {
                let mut groups = groups;
                assert(groups@[i as int].0 == primary_key(sequence));
                let group = groups.remove(i);
                proof {
                    assert forall|records: Seq<TaggedEndpointCandidate<T>>|
                        all == #[trigger] grouped(records) implies group.1@ == selected_members(
                        records,
                        Some(sequence),
                    ) by {
                        assert(chain_keys(records).len() == grouped(records).len());
                        assert(all[i as int] == (given[i as int].0, given[i as int].1@));
                        assert(grouped(records)[i as int] == (
                            chain_keys(records)[i as int],
                            chain_members(records, chain_keys(records)[i as int]),
                        ));
                    }
                }
                return group.1;
            }
            let empty: Vec<(T, EndpointAddr)> = Vec::new();
            proof {
                assert forall|records: Seq<TaggedEndpointCandidate<T>>|
                    all == #[trigger] grouped(records) implies empty@ == selected_members(
                    records,
                    Some(sequence),
                ) by {
                    let key = primary_key(sequence);
                    if chain_keys(records).contains(key) {
                        let j = chain_keys(records).index_of(key);
                        assert(chain_keys(records).len() == grouped(records).len());
                        assert(all[j] == (given[j].0, given[j].1@));
                        assert(grouped(records)[j].0 == chain_keys(records)[j]);
                        assert(groups@[j].0 == key);
                    }
                    lemma_no_members(records, key);
                }
            }
            empty
        },
        None => {
            if groups.len() > 0 {
                let mut groups = groups;
                let group = groups.remove(0);
                proof {
                    assert forall|records: Seq<TaggedEndpointCandidate<T>>|
                        all == #[trigger] grouped(records) implies group.1@ == selected_members(
                        records,
                        None,
                    ) by {
                        assert(all[0] == (given[0].0, given[0].1@));
                        assert(chain_keys(records).len() == all.len());
                        assert(grouped(records)[0] == (
                            chain_keys(records)[0],
                            chain_members(records, chain_keys(records)[0]),
                        ));
                        if records.len() > 0 {
                            lemma_first_chain(records);
                        }
                    }
                }
                return group.1;
            }
            let empty: Vec<(T, EndpointAddr)> = Vec::new();
            proof {
                assert forall|records: Seq<TaggedEndpointCandidate<T>>|
                    all == #[trigger] grouped(records) implies empty@ == selected_members(
                    records,
                    None,
                ) by {
                    if records.len() > 0 {
                        lemma_first_chain(records);
                        assert(grouped(records).len() > 0);
                    }
                }
            }
            empty
        },
    }
}

/// The records of the certificate chain that is selected.
pub fn selected_endpoint_records_with_fallback_chain_keys<T>(
    records: Vec<TaggedEndpointCandidate<T>>,
    sequence: Option<CertificateSequence>,
) -> (r: Vec<(T, EndpointAddr)>)
    ensures
        r@ == selected_members(records@, sequence),
{
    let ghost all = records@;
    let groups = grouped_endpoint_candidates(records);
    assert(groups_view(groups@) == grouped(all));
    select_group(groups, sequence)
}

/// Records that have no publisher certificate to fall back on.
pub open spec fn candidates<T>(records: Seq<(T, Endpoint)>) -> Seq<TaggedEndpointCandidate<T>> {
    records.map_values(
        |r: (T, Endpoint)|
            TaggedEndpointCandidate { tag: r.0, record: r.1, fallback_chain_key: None },
    )
}

/// The records of the certificate chain that is selected.
pub fn selected_endpoint_records_for_sequence<T>(
    records: Vec<(T, Endpoint)>,
    sequence: Option<CertificateSequence>,
) -> (r: Vec<(T, EndpointAddr)>)
    ensures
        r@ == selected_members(candidates(records@), sequence),
{
    let ghost all = records@;
    let mut tagged: Vec<TaggedEndpointCandidate<T>> = Vec::new();
    for record in iter: records
        invariant
            iter.seq() == all,
            tagged@ == candidates(all).take(iter.index()),
    {
        tagged.push(
            TaggedEndpointCandidate { tag: record.0, record: record.1, fallback_chain_key: None },
        );
        assert(tagged@ =~= candidates(all).take(iter.index() + 1));
    }
    assert(tagged@ =~= candidates(all));
    selected_endpoint_records_with_fallback_chain_keys(tagged, sequence)
}

/// The records of the first certificate chain.
pub fn selected_endpoint_records<T>(records: Vec<(T, Endpoint)>) -> (r: Vec<(T, EndpointAddr)>)
    ensures
        r@ == selected_members(candidates(records@), None),
{
    selected_endpoint_records_for_sequence(records, None)
}

/// Records without a tag.
pub open spec fn untagged(records: Seq<Endpoint>) -> Seq<((), Endpoint)> {
    records.map_values(|r: Endpoint| ((), r))
}

/// Where the endpoints of the certificate chain that is selected are reached.
pub fn selected_endpoint_addrs_for_sequence(
    records: &Vec<Endpoint>,
    sequence: Option<CertificateSequence>,
) -> (r: Vec<EndpointAddr>)
    ensures
        r@ == addresses(selected_members(candidates(untagged(records@)), sequence)),
{
    let mut tagged: Vec<((), Endpoint)> = Vec::new();
    let mut i: usize = 0;
    while i < records.len()
        invariant
            i <= records@.len(),
            tagged@ == untagged(records@).take(i as int),
        decreases records@.len() - i,
    {
        tagged.push(((), records[i]));
        assert(tagged@ =~= untagged(records@).take(i + 1));
        i = i + 1;
    }
    assert(tagged@ =~= untagged(records@));
    let selected = selected_endpoint_records_for_sequence(tagged, sequence);
    member_addresses(&selected)
}

/// Where the endpoints of the first certificate chain are reached.
pub fn selected_endpoint_addrs(records: &Vec<Endpoint>) -> (r: Vec<EndpointAddr>)
    ensures
        r@ == addresses(selected_members(candidates(untagged(records@)), None)),
{
    selected_endpoint_addrs_for_sequence(records, None)
}

/// Something is selected exactly where there is a record of the certificate chain that
/// is asked for, or, without a sequence, any record.
pub proof fn law_selection_is_empty_only_without_records<T>(
    records: Seq<TaggedEndpointCandidate<T>>,
    sequence: Option<CertificateSequence>,
)
    ensures
        selected_members(records, sequence).len() > 0 <==> (exists|i: int|
            0 <= i < records.len() && (match sequence {
                Some(sequence) => (#[trigger] records[i]).key() == primary_key(sequence),
                None => true,
            })),
{
    match sequence {
        Some(sequence) => {
            let key = primary_key(sequence);
            law_chains_are_unique(records);
            if exists|i: int| 0 <= i < records.len() && (#[trigger] records[i]).key() == key {
                let i = choose|i: int|
                    0 <= i < records.len() && (#[trigger] records[i]).key() == key;
                law_every_record_is_in_its_group(records, i);
            } else {
                lemma_no_members(records, key);
            }
        },
        None => {
            if records.len() > 0 {
                law_every_record_is_in_its_group(records, 0);
            }
        },
    }
}

/// With a sequence, the records of the primary chain with the sequence are selected and no
/// others, in their order.
pub proof fn law_a_sequence_selects_its_primary_chain<T>(
    records: Seq<TaggedEndpointCandidate<T>>,
    more: Seq<TaggedEndpointCandidate<T>>,
    record: TaggedEndpointCandidate<T>,
    sequence: CertificateSequence,
)
    ensures
        selected_members(records + more, Some(sequence)) == selected_members(
            records,
            Some(sequence),
        ) + selected_members(more, Some(sequence)),
        ({
            let key = effective_key(record.record, record.fallback_chain_key);
            let chosen = key.sequence == sequence && key.kind == CertificateChainKind::Primary;
            &&& chosen ==> selected_members(seq![record], Some(sequence)) == seq![
                (record.tag, record.record.address()),
            ]
            &&& !chosen ==> selected_members(seq![record], Some(sequence)).len() == 0
        }),
{
    law_members_of_a_chain_stay_in_order(records, more, record, primary_key(sequence));
}

/// Without a sequence, the first record and all those of the same chain are selected.
pub proof fn law_the_first_record_selects_its_chain<T>(
    record: TaggedEndpointCandidate<T>,
    rest: Seq<TaggedEndpointCandidate<T>>,
)
    ensures
        selected_members(Seq::<TaggedEndpointCandidate<T>>::empty(), None).len() == 0,
        selected_members(seq![record] + rest, None) == seq![
            (record.tag, record.record.address()),
        ] + chain_members(rest, effective_key(record.record, record.fallback_chain_key)),
{
    law_members_of_a_chain_stay_in_order(seq![record], rest, record, record.key());
    assert((seq![record] + rest)[0] == record);
}

proof fn lemma_one_chain(records: Seq<Endpoint>, key: CertificateChainKey)
    requires
        forall|i: int| 0 <= i < records.len() ==> (#[trigger] records[i]).chain_key() == key,
    ensures
        chain_members(candidates(untagged(records)), key).len() == records.len(),
        forall|i: int|
            0 <= i < records.len() ==> (#[trigger] chain_members(
                candidates(untagged(records)),
                key,
            )[i]).1 == records[i].address(),
    decreases records.len(),
{
    let all = candidates(untagged(records));
    if records.len() > 0 {
        let front = records.drop_last();
        assert forall|i: int| 0 <= i < front.len() implies (#[trigger] front[i]).chain_key()
            == key by {
            assert(front[i] == records[i]);
        }
        lemma_one_chain(front, key);
        assert(all.drop_last() =~= candidates(untagged(front)));
        assert(records[records.len() - 1].chain_key() == key);
        assert(all.last().record == records.last());
        let known = chain_members(candidates(untagged(front)), key);
        assert(chain_members(all, key) == known.push(all.last().member()));
        assert forall|i: int| 0 <= i < records.len() implies (#[trigger] chain_members(
            all,
            key,
        )[i]).1 == records[i].address() by {
            if i < front.len() {
                assert(chain_members(all, key)[i] == known[i]);
                assert(front[i] == records[i]);
            }
        }
    }
}

/// Endpoints that are all of one chain are all selected, in their order, each by the address
/// that it is reached at.
pub proof fn law_endpoints_of_one_chain_are_all_selected(records: Seq<Endpoint>)
    requires
        forall|i: int, j: int|
            0 <= i < records.len() && 0 <= j < records.len() ==> (#[trigger] records[i]).main == (
            #[trigger] records[j]).main && records[i].sequence == records[j].sequence,
    ensures
        ({
            let chosen = addresses(selected_members(candidates(untagged(records)), None));
            &&& chosen.len() == records.len()
            &&& forall|i: int|
                0 <= i < records.len() ==> #[trigger] chosen[i] == records[i].address()
        }),
{
    if records.len() > 0 {
        let key = records[0].chain_key();
        assert forall|i: int| 0 <= i < records.len() implies (#[trigger] records[i]).chain_key()
            == key by {
            assert(records[i].main == records[0].main);
            assert(records[i].sequence == records[0].sequence);
        }
        lemma_one_chain(records, key);
        assert(candidates(untagged(records))[0].key() == key);
    }
}

} // verus!
