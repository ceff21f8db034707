//! The endpoints of the primary certificate chain of a name.
use vstd::prelude::*;

use crate::net::EndpointAddr;
use crate::protocol::certificate::is_primary_chain_key;
use crate::protocol::packet::Endpoint;
use crate::resolvers::endpoint_candidates::{
    addresses, chain_keys, chain_members, effective_key, grouped, grouped_endpoint_candidates,
    groups_view, member_addresses, TaggedEndpointCandidate,
};
use crate::resolvers::endpoint_group::{candidates, lemma_first_chain, untagged};

verus! {

/// The position of the first record of a primary chain, or the number of records where
/// there is none.
pub open spec fn first_primary<T>(records: Seq<TaggedEndpointCandidate<T>>) -> int
    decreases records.len(),
{
    if records.len() == 0 {
        0
    } else {
        let i = first_primary(records.drop_last());
        if i < records.len() - 1 {
            i
        } else if records.last().key().kind is Primary {
            records.len() - 1
        } else {
            records.len() as int
        }
    }
}

/// The members of the preferred certificate chain: that of the first record of a primary
/// chain, or else that of the first record.
pub open spec fn preferred_members<T>(records: Seq<TaggedEndpointCandidate<T>>) -> Seq<
    (T, EndpointAddr),
> {
    let i = first_primary(records);
    if records.len() == 0 {
        Seq::empty()
    } else if i < records.len() {
        chain_members(records, records[i].key())
    } else {
        chain_members(records, records[0].key())
    }
}

proof fn lemma_first_primary<T>(records: Seq<TaggedEndpointCandidate<T>>)
    ensures
        0 <= first_primary(records) <= records.len(),
        first_primary(records) < records.len() ==> records[first_primary(records)].key().kind is
            Primary,
        forall|j: int|
            0 <= j < first_primary(records) ==> !((#[trigger] records[j]).key().kind is Primary),
    decreases records.len(),
{
    if records.len() > 0 {
        lemma_first_primary(records.drop_last());
        assert forall|j: int| 0 <= j < first_primary(records) implies !((
        #[trigger] records[j]).key().kind is Primary) by {
            if j < records.len() - 1 {
                assert(records.drop_last()[j] == records[j]);
            }
        }
    }
}

/// The first primary chain among those of some records is that of the first record of
/// a primary chain.
proof fn lemma_first_primary_chain<T>(records: Seq<TaggedEndpointCandidate<T>>, i: int)
    requires
        0 <= i <= chain_keys(records).len(),
        forall|j: int|
            0 <= j < i ==> !((#[trigger] chain_keys(records)[j]).kind is Primary),
        i < chain_keys(records).len() ==> chain_keys(records)[i].kind is Primary,
    ensures
        i < chain_keys(records).len() <==> first_primary(records) < records.len(),
        i < chain_keys(records).len() ==> chain_keys(records)[i]
            == records[first_primary(records)].key(),
    decreases records.len(),
{
    lemma_first_primary(records);
    if records.len() > 0 {
        let front = records.drop_last();
        let keys = chain_keys(front);
        lemma_first_primary(front);
        let n = if i < keys.len() {
            i
        } else {
            keys.len() as int
        };
        assert forall|j: int| 0 <= j < n implies !((#[trigger] keys[j]).kind is Primary) by {
            assert(keys[j] == chain_keys(records)[j]);
        }
        if n < keys.len() {
            assert(keys[n] == chain_keys(records)[n]);
        }
        lemma_first_primary_chain(front, n);
        if keys.contains(records.last().key()) {
            let j = keys.index_of(records.last().key());
            assert(keys[j].kind == records.last().key().kind);
        } else {
            assert(chain_keys(records)[keys.len() as int] == records.last().key());
        }
    }
}

/// The records of the preferred certificate chain.
pub fn selected_endpoint_records<T>(records: Vec<(T, Endpoint)>) -> (r: Vec<(T, EndpointAddr)>)
    ensures
        r@ == preferred_members(candidates(records@)),
{
    let ghost all = candidates(records@);
    let ghost given = records@;
    let mut tagged: Vec<TaggedEndpointCandidate<T>> = Vec::new();
    for record in iter: records
        invariant
            iter.seq() == given,
            tagged@ == candidates(given).take(iter.index()),
    {
        tagged.push(
            TaggedEndpointCandidate { tag: record.0, record: record.1, fallback_chain_key: None },
        );
        assert(tagged@ =~= candidates(given).take(iter.index() + 1));
    }
    assert(tagged@ =~= all);
    let mut groups = grouped_endpoint_candidates(tagged);
    proof {
        assert(groups_view(groups@).len() == groups@.len());
        assert forall|j: int| 0 <= j < groups@.len() implies (#[trigger] groups@[j]).0
            == chain_keys(all)[j] && groups@[j].1@ == chain_members(all, chain_keys(all)[j]) by {
            assert(groups_view(groups@)[j] == grouped(all)[j]);
        }
    }
    let mut i: usize = 0;
    while i < groups.len() && !is_primary_chain_key(&groups[i].0)
        invariant
            i <= groups@.len(),
            groups@.len() == chain_keys(all).len(),
            forall|j: int| 0 <= j < groups@.len() ==> (#[trigger] groups@[j]).0 == chain_keys(all)[j],
            forall|j: int| 0 <= j < i ==> !((#[trigger] chain_keys(all)[j]).kind is Primary),
        decreases groups@.len() - i,
    {
        assert(groups@[i as int].0 == chain_keys(all)[i as int]);
        i = i + 1;
    }
    proof {
        if i < groups@.len() {
            assert(groups@[i as int].0 == chain_keys(all)[i as int]);
        }
        lemma_first_primary_chain(all, i as int);
        lemma_first_primary(all);
        if all.len() > 0 {
            lemma_first_chain(all);
        }
    }
    if i < groups.len() {
        let group = groups.remove(i);
        return group.1;
    }
    if groups.len() > 0 {
        let group = groups.remove(0);
        assert(all.len() > 0);
        return group.1;
    }
    Vec::new()
}

/// Where the endpoints of the preferred certificate chain are reached.
pub fn selected_endpoint_addrs(records: &Vec<Endpoint>) -> (r: Vec<EndpointAddr>)
    ensures
        r@ == addresses(preferred_members(candidates(untagged(records@)))),
{
    let mut tagged: Vec<((), Endpoint)> = Vec::new();
    let mut i: usize = 0;
    while i < records.len()
        invariant
            i <= records@.len(),
            tagged@ == untagged(records@).take(i as int),
        decreases records@.len() - i,
    {
        tagged.push(((), records[i]));
        assert(tagged@ =~= untagged(records@).take(i + 1));
        i = i + 1;
    }
    assert(tagged@ =~= untagged(records@));
    let selected = selected_endpoint_records(tagged);
    member_addresses(&selected)
}

/// The chain of the first record that is of a primary chain is preferred, and only where no
/// record is of one, the chain of the first record of all.
pub proof fn law_primary_chains_are_preferred<T>(
    records: Seq<TaggedEndpointCandidate<T>>,
    i: int,
)
    requires
        0 <= i < records.len(),
    ensures
        effective_key(records[i].record, records[i].fallback_chain_key).kind is Primary && (
        forall|j: int|
            0 <= j < i ==> !(effective_key(
                (#[trigger] records[j]).record,
                records[j].fallback_chain_key,
            ).kind is Primary)) ==> preferred_members(records) == chain_members(
            records,
            effective_key(records[i].record, records[i].fallback_chain_key),
        ),
        (forall|j: int|
            0 <= j < records.len() ==> !(effective_key(
                (#[trigger] records[j]).record,
                records[j].fallback_chain_key,
            ).kind is Primary)) ==> preferred_members(records) == chain_members(
            records,
            effective_key(records[0].record, records[0].fallback_chain_key),
        ),
{
    lemma_first_primary(records);
    let first = first_primary(records);
    if records[i].key().kind is Primary {
        assert(first <= i);
    }
    if first < records.len() {
        assert(records[first].key().kind is Primary);
    }
}

} // verus!
