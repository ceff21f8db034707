//! Lookup through the mDNS bindings of a machine.
use vstd::prelude::*;

use crate::foreign::dns_name;
use crate::net::{EndpointAddr, Source, SourceModel};
use crate::protocol::certificate::{CertificateChainKey, CertificateSequence};
use crate::protocol::packet::Endpoint;
use crate::protocol::wire::{lemma_views_push, views};
use crate::report::{ErrorModel, ErrorReport};
use crate::resolvers::endpoint_candidates::{
    addresses, chain_members, grouped, grouped_endpoint_candidates, groups_view,
    member_addresses, CandidateGroupModel, EndpointCandidateGroup, EndpointCandidates, SequenceQuery, TaggedEndpointCandidate,
};
use crate::resolvers::endpoint_group::{
    selected_endpoint_records_with_fallback_chain_keys, selected_members,
};
use crate::resolvers::names::{
    endpoint_lookup_name_and_sequence, law_hosts_are_looked_up_with_or_without_a_number,
    law_other_hosts_are_not_looked_up, lemma_number_is_cut_off, lookup_host, number_colon,
    resolvable, resolvable_name, selects, split_number, without_number,
};
use crate::server::index::lemma_filter_front;
use crate::text::{decimal, lowered, strip_suffix, text_eq, to_lower};

verus! {

/// The host of a name. Only a number behind the last colon counts as a port.
pub fn authority_host<'a>(name: &'a str) -> (r: &'a str)
    ensures
        r@ == without_number(name@),
{
    let (host, _) = split_number(name);
    host
}

/// The host of a name without a dot at its end.
pub open spec fn undotted_host(name: Seq<char>) -> Seq<char> {
    let host = without_number(name);
    if "."@.is_suffix_of(host) {
        host.take(host.len() - "."@.len())
    } else {
        host
    }
}

/// The host of a name without a dot at its end, where it is a DNS name.
pub fn normalized_authority_host<'a>(name: &'a str) -> (r: Option<&'a str>)
    ensures
        (match r {
            Some(host) => Some(host@),
            None => None,
        }) == resolvable(undotted_host(name@)),
{
    let host = authority_host(name);
    match strip_suffix(host, ".") {
        Some(host) => resolvable_name(host),
        None => resolvable_name(host),
    }
}

/// Whether a host is in the DHTTP domain.
pub open spec fn in_dhttp_domain(host: Seq<char>) -> bool {
    lowered(host) == "dhttp.net"@ || ".dhttp.net"@.is_suffix_of(lowered(host))
}

/// Whether a host is in the domain of the local network.
pub open spec fn in_local_domain(host: Seq<char>) -> bool {
    ".local"@.is_suffix_of(lowered(host))
}

/// Whether a host is in the DHTTP domain.
pub fn is_dhttp_authority_host(host: &str) -> (r: bool)
    ensures
        r == in_dhttp_domain(host@),
{
    let lower = to_lower(host);
    text_eq(lower.as_str(), "dhttp.net") || strip_suffix(lower.as_str(), ".dhttp.net").is_some()
}

/// Whether a host is in the domain of the local network.
pub fn is_local_mdns_host(host: &str) -> (r: bool)
    ensures
        r == in_local_domain(host@),
{
    let lower = to_lower(host);
    strip_suffix(lower.as_str(), ".local").is_some()
}

/// The host that is asked for in the local network.
pub open spec fn mdns_host(name: Seq<char>) -> Option<Seq<char>> {
    match resolvable(undotted_host(name)) {
        None => None,
        Some(host) => if in_dhttp_domain(host) {
            lookup_host(name)
        } else if in_local_domain(host) {
            Some(host)
        } else {
            None
        },
    }
}

/// The host that is asked for in the local network, and the certificate chain that the
/// name selects. Only names of the DHTTP domain select one, and other names have to be
/// local.
pub fn mdns_lookup_parts<'a>(name: &'a str) -> (r: Option<
    (&'a str, Option<CertificateSequence>),
>)
    ensures
        (match r {
            Some((host, _)) => Some(host@),
            None => None,
        }) == mdns_host(name@),
        match r {
            Some((_, Some(sequence))) => in_dhttp_domain(resolvable(undotted_host(name@))->0)
                && number_colon(name@) >= 0 && selects(
                name@.skip(number_colon(name@) + 1),
                sequence,
            ),
            Some((_, None)) => number_colon(name@) < 0 || !in_dhttp_domain(
                resolvable(undotted_host(name@))->0,
            ),
            None => true,
        },
{
    let host = match normalized_authority_host(name) {
        Some(host) => host,
        None => return None,
    };
    if is_dhttp_authority_host(host) {
        return endpoint_lookup_name_and_sequence(name);
    }
    if is_local_mdns_host(host) {
        Some((host, None))
    } else {
        None
    }
}

/// Whether a group is of the certificate chain with a sequence.
pub open spec fn of_sequence(sequence: CertificateSequence) -> spec_fn(CandidateGroupModel) -> bool {
    |group: CandidateGroupModel| group.chain.sequence == sequence
}

/// The groups that a query asks for.
pub open spec fn asked_for(
    groups: Seq<CandidateGroupModel>,
    query: SequenceQuery,
) -> Seq<CandidateGroupModel> {
    match query {
        SequenceQuery::Default => if groups.len() > 3 {
            groups.take(3)
        } else {
            groups
        },
        SequenceQuery::Exact(sequence) => groups.filter(of_sequence(sequence)),
        SequenceQuery::Limit(limit) => if groups.len() > limit {
            groups.take(limit as int)
        } else {
            groups
        },
        SequenceQuery::All => groups,
    }
}

fn first_groups(groups: Vec<EndpointCandidateGroup>, n: usize) -> (r: Vec<EndpointCandidateGroup>)
    ensures
        views(r@) == (if groups@.len() > n {
            views(groups@).take(n as int)
        } else {
            views(groups@)
        }),
{
    let ghost given = groups@;
    let mut groups = groups;
    groups.truncate(n);
    proof {
        if given.len() > n {
            assert(views(groups@) =~= views(given).take(n as int));
        } else {
            assert(views(groups@) =~= views(given));
        }
    }
    groups
}

/// The groups that a query asks for.
pub fn select_candidate_groups(
    groups: Vec<EndpointCandidateGroup>,
    query: SequenceQuery,
) -> (r: Vec<EndpointCandidateGroup>)
    ensures
        views(r@) == asked_for(views(groups@), query),
{
    match query {
        SequenceQuery::Default => first_groups(groups, 3),
        SequenceQuery::Limit(limit) => first_groups(groups, limit),
        SequenceQuery::All => groups,
        SequenceQuery::Exact(sequence) => {
            let ghost all = groups@;
            let ghost wanted = of_sequence(sequence);
            let mut out: Vec<EndpointCandidateGroup> = Vec::new();
            proof {
                reveal(Seq::filter);
                assert(views(out@) =~= views(all).take(0).filter(wanted));
            }
            for group in iter: groups
                invariant
                    iter.seq() == all,
                    wanted == of_sequence(sequence),
                    views(out@) == views(all).take(iter.index()).filter(wanted),
            {
                let ghost n = iter.index();
                let ghost kept = out@;
                proof {
                    reveal(Seq::filter);
                    assert(views(all).take(n + 1).drop_last() =~= views(all).take(n));
                    assert(views(all).take(n + 1).last() == group@);
                    lemma_views_push(kept, group);
                }
                if group.chain.sequence == sequence {
                    out.push(group);
                }
            }
            assert(views(all).take(all.len() as int) =~= views(all));
            out
        },
    }
}

/// What a binding answered: who it is and the endpoints that it found, or why it found
/// none.
pub type MdnsReply = Result<(Source, Vec<Endpoint>), ErrorReport>;

/// Some endpoints, tagged with the reply that told of them.
pub open spec fn tagged(endpoints: Seq<Endpoint>, reply: usize) -> Seq<
    TaggedEndpointCandidate<usize>,
> {
    endpoints.map_values(
        |record: Endpoint|
            TaggedEndpointCandidate { tag: reply, record, fallback_chain_key: None },
    )
}

/// The endpoints that the bindings told of, in the order in which they answered.
pub open spec fn told(replies: Seq<MdnsReply>) -> Seq<TaggedEndpointCandidate<usize>>
    decreases replies.len(),
{
    if replies.len() == 0 {
        Seq::empty()
    } else {
        let front = told(replies.drop_last());
        match replies.last() {
            Ok((_, endpoints)) => front + tagged(endpoints@, (replies.len() - 1) as usize),
            Err(_) => front,
        }
    }
}

/// The last failure of a binding.
pub open spec fn last_failure(replies: Seq<MdnsReply>) -> Option<ErrorModel>
    decreases replies.len(),
{
    if replies.len() == 0 {
        None
    } else {
        match replies.last() {
            Ok(_) => last_failure(replies.drop_last()),
            Err(error) => Some(error@),
        }
    }
}

/// Who gave a reply.
pub open spec fn source_of(replies: Seq<MdnsReply>, i: usize) -> SourceModel {
    match replies[i as int] {
        Ok((source, _)) => source@,
        Err(_) => SourceModel::System,
    }
}

/// The replies of the bindings, taken apart.
struct Collected {
    sources: Vec<Source>,
    records: Vec<TaggedEndpointCandidate<usize>>,
    last_error: Option<ErrorReport>,
    has_success: bool,
}

proof fn lemma_tags(replies: Seq<MdnsReply>)
    requires
        replies.len() <= usize::MAX,
    ensures
        forall|j: int|
            0 <= j < told(replies).len() ==> (#[trigger] told(replies)[j]).tag < replies.len(),
    decreases replies.len(),
{
    if replies.len() > 0 {
        lemma_tags(replies.drop_last());
    }
}

fn push_tagged(
    out: &mut Vec<TaggedEndpointCandidate<usize>>,
    endpoints: &Vec<Endpoint>,
    reply: usize,
)
    ensures
        final(out)@ == old(out)@ + tagged(endpoints@, reply),
{
    let ghost before = out@;
    let mut j: usize = 0;
    while j < endpoints.len()
        invariant
            j <= endpoints@.len(),
            out@ == before + tagged(endpoints@, reply).take(j as int),
        decreases endpoints@.len() - j,
    {
        out.push(
            TaggedEndpointCandidate {
                tag: reply,
                record: endpoints[j],
                fallback_chain_key: None,
            },
        );
        assert(out@ =~= before + tagged(endpoints@, reply).take(j + 1));
        j = j + 1;
    }
    assert(tagged(endpoints@, reply).take(j as int) =~= tagged(endpoints@, reply));
}

fn collect(replies: Vec<MdnsReply>) -> (r: Collected)
    ensures
        r.records@ == told(replies@),
        r.sources@.len() == replies@.len(),
        forall|j: int|
            0 <= j < replies@.len() ==> (#[trigger] r.sources@[j])@ == source_of(
                replies@,
                j as usize,
            ),
        (match r.last_error {
            Some(error) => Some(error@),
            None => None,
        }) == last_failure(replies@),
        r.has_success == exists|j: int| 0 <= j < replies@.len() && (#[trigger] replies@[j]) is Ok,
        replies@.len() <= usize::MAX,
{
    let ghost all = replies@;
    let mut out = Collected {
        sources: Vec::new(),
        records: Vec::new(),
        last_error: None,
        has_success: false,
    };
    let n = replies.len();
    let mut k: usize = 0;
    assert(out.records@ =~= told(all.take(0)));
    for reply in iter: replies
        invariant
            iter.seq() == all,
            n == all.len(),
            k == iter.index(),
            out.records@ == told(all.take(iter.index())),
            out.sources@.len() == iter.index(),
            forall|j: int|
                0 <= j < iter.index() ==> (#[trigger] out.sources@[j])@ == source_of(
                    all,
                    j as usize,
                ),
            (match out.last_error {
                Some(error) => Some(error@),
                None => None,
            }) == last_failure(all.take(iter.index())),
            out.has_success == exists|j: int|
                0 <= j < iter.index() && (#[trigger] all[j]) is Ok,
    {
        let ghost i = iter.index();
        proof {
            assert(all.take(i + 1).drop_last() =~= all.take(i));
            assert(all.take(i + 1).last() == reply);
            assert(all[i] == reply);
        }
        match reply {
            Ok((source, endpoints)) => {
                out.sources.push(source);
                out.has_success = true;
                push_tagged(&mut out.records, &endpoints, k);
            },
            Err(error) => {
                out.sources.push(Source::System);
                out.last_error = Some(error);
            },
        }
        k = k + 1;
    }
    assert(all.take(all.len() as int) =~= all);
    out
}

/// What a lookup found, with who told of it.
pub open spec fn found_view(found: Seq<(Source, EndpointAddr)>) -> Seq<(SourceModel, EndpointAddr)> {
    found.map_values(|f: (Source, EndpointAddr)| (f.0@, f.1))
}

/// Members of a group with who told of them.
pub open spec fn named_members(
    members: Seq<(usize, EndpointAddr)>,
    replies: Seq<MdnsReply>,
) -> Seq<(SourceModel, EndpointAddr)> {
    members.map_values(|m: (usize, EndpointAddr)| (source_of(replies, m.0), m.1))
}

/// Who told of some members, each once, in the order in which they first occur.
pub open spec fn member_sources(
    members: Seq<(usize, EndpointAddr)>,
    replies: Seq<MdnsReply>,
) -> Seq<SourceModel>
    decreases members.len(),
{
    if members.len() == 0 {
        Seq::empty()
    } else {
        let front = member_sources(members.drop_last(), replies);
        let source = source_of(replies, members.last().0);
        if front.contains(source) {
            front
        } else {
            front.push(source)
        }
    }
}

/// The groups that the bindings told of.
pub open spec fn told_groups(replies: Seq<MdnsReply>) -> Seq<CandidateGroupModel> {
    grouped(told(replies)).map_values(
        |g: (CertificateChainKey, Seq<(usize, EndpointAddr)>)|
            CandidateGroupModel {
                chain: g.0,
                endpoints: addresses(g.1),
                sources: member_sources(g.1, replies),
            },
    )
}

proof fn lemma_member_tags(
    records: Seq<TaggedEndpointCandidate<usize>>,
    key: CertificateChainKey,
    n: nat,
)
    requires
        forall|j: int| 0 <= j < records.len() ==> (#[trigger] records[j]).tag < n,
    ensures
        forall|j: int|
            0 <= j < chain_members(records, key).len() ==> (#[trigger] chain_members(
                records,
                key,
            )[j]).0 < n,
    decreases records.len(),
{
    if records.len() > 0 {
        assert forall|j: int| 0 <= j < records.drop_last().len() implies (
        #[trigger] records.drop_last()[j]).tag < n by {
            assert(records.drop_last()[j] == records[j]);
        }
        lemma_member_tags(records.drop_last(), key, n);
        assert(records[records.len() - 1].tag < n);
        let front = chain_members(records.drop_last(), key);
        assert forall|j: int| 0 <= j < chain_members(records, key).len() implies (
        #[trigger] chain_members(records, key)[j]).0 < n by {
            if j < front.len() {
                assert(chain_members(records, key)[j] == front[j]);
            }
        }
    }
}

/// What the bindings of a machine found together for a name: the endpoints of the
/// certificate chain that is selected. It is an error where no binding succeeded.
pub fn merge_queries(replies: Vec<MdnsReply>, sequence: Option<CertificateSequence>) -> (r: Result<
    Vec<(Source, EndpointAddr)>,
    ErrorReport,
>)
    ensures
        match r {
            Ok(found) => (exists|j: int|
                0 <= j < replies@.len() && (#[trigger] replies@[j]) is Ok) && found_view(found@)
                == named_members(selected_members(told(replies@), sequence), replies@),
            Err(e) => (forall|j: int| 0 <= j < replies@.len() ==> (#[trigger] replies@[j]) is Err)
                && e@ == (match last_failure(replies@) {
                Some(error) => error,
                None => ErrorModel {
                    message: "no mdns resolvers available"@,
                    sources: Seq::empty(),
                },
            }),
        },
{
    let ghost all = replies@;
    let collected = collect(replies);
    if !collected.has_success {
        return match collected.last_error {
            Some(error) => Err(error),
            None => Err(ErrorReport::plain("no mdns resolvers available")),
        };
    }
    proof {
        lemma_tags(all);
        if let Some(sequence) = sequence {
            lemma_member_tags(
                told(all),
                crate::resolvers::endpoint_group::primary_key(sequence),
                all.len(),
            );
        } else if told(all).len() > 0 {
            lemma_member_tags(told(all), told(all)[0].key(), all.len());
        }
    }
    let selected = selected_endpoint_records_with_fallback_chain_keys(collected.records, sequence);
    let ghost wanted = named_members(selected@, all);
    let mut found: Vec<(Source, EndpointAddr)> = Vec::new();
    let mut i: usize = 0;
    while i < selected.len()
        invariant
            i <= selected@.len(),
            wanted == named_members(selected@, all),
            collected.sources@.len() == all.len(),
            forall|j: int|
                0 <= j < all.len() ==> (#[trigger] collected.sources@[j])@ == source_of(
                    all,
                    j as usize,
                ),
            forall|j: int| 0 <= j < selected@.len() ==> (#[trigger] selected@[j]).0 < all.len(),
            found_view(found@) == wanted.take(i as int),
        decreases selected@.len() - i,
    {
        let source = collected.sources[selected[i].0].clone();
        let ghost before = found@;
        found.push((source, selected[i].1));
        assert(found_view(found@) =~= found_view(before).push((source@, selected@[i as int].1)));
        assert(wanted.take(i + 1) =~= wanted.take(i as int).push(wanted[i as int]));
        i = i + 1;
    }
    assert(wanted.take(i as int) =~= wanted);
    Ok(found)
}

fn distinct_sources(
    members: &Vec<(usize, EndpointAddr)>,
    sources: &Vec<Source>,
    replies: Ghost<Seq<MdnsReply>>,
) -> (r: Vec<Source>)
    requires
        sources@.len() == replies@.len(),
        forall|j: int|
            0 <= j < sources@.len() ==> (#[trigger] sources@[j])@ == source_of(
                replies@,
                j as usize,
            ),
        forall|j: int| 0 <= j < members@.len() ==> (#[trigger] members@[j]).0 < sources@.len(),
    ensures
        views(r@) == member_sources(members@, replies@),
{
    let mut out: Vec<Source> = Vec::new();
    let mut i: usize = 0;
    assert(views(out@) =~= member_sources(members@.take(0), replies@));
    while i < members.len()
        invariant
            i <= members@.len(),
            sources@.len() == replies@.len(),
            forall|j: int|
                0 <= j < sources@.len() ==> (#[trigger] sources@[j])@ == source_of(
                    replies@,
                    j as usize,
                ),
            forall|j: int| 0 <= j < members@.len() ==> (#[trigger] members@[j]).0 < sources@.len(),
            views(out@) == member_sources(members@.take(i as int), replies@),
        decreases members@.len() - i,
    {
        proof {
            assert(members@.take(i + 1).drop_last() =~= members@.take(i as int));
            assert(members@.take(i + 1).last() == members@[i as int]);
        }
        let source = sources[members[i].0].clone();
        let mut k: usize = 0;
        while k < out.len() && !out[k].same(&source)
            invariant
                k <= out@.len(),
                forall|j: int| 0 <= j < k ==> (#[trigger] out@[j])@ != source@,
            decreases out@.len() - k,
        {
            k = k + 1;
        }
        if k == out.len() {
            assert(!views(out@).contains(source@)) by {
                if views(out@).contains(source@) {
                    let j = views(out@).index_of(source@);
                    assert(out@[j]@ == source@);
                }
            }
            proof {
                lemma_views_push(out@, source);
            }
            out.push(source);
        } else {
            assert(views(out@)[k as int] == source@);
        }
        i = i + 1;
    }
    assert(members@.take(i as int) =~= members@);
    out
}

/// What the bindings of a machine found together for a name: the groups that are asked
/// for. It is an error where no binding told of an endpoint.
pub fn merge_candidates(replies: Vec<MdnsReply>, query: SequenceQuery) -> (r: Result<
    EndpointCandidates,
    ErrorReport,
>)
    ensures
        match r {
            Ok(candidates) => told(replies@).len() > 0 && views(candidates.groups@) == asked_for(
                told_groups(replies@),
                query,
            ),
            Err(e) => told(replies@).len() == 0 && e@ == (if replies@.len() == 0 {
                ErrorModel { message: "no mdns resolvers available"@, sources: Seq::empty() }
            } else {
                match last_failure(replies@) {
                    Some(error) => error,
                    None => ErrorModel { message: "no DNS record found"@, sources: Seq::empty() },
                }
            }),
        },
{
    let ghost all = replies@;
    if replies.is_empty() {
        return Err(ErrorReport::plain("no mdns resolvers available"));
    }
    let collected = collect(replies);
    if collected.records.is_empty() {
        return match collected.last_error {
            Some(error) => Err(error),
            None => Err(ErrorReport::plain("no DNS record found")),
        };
    }
    proof {
        lemma_tags(all);
    }
    let grouped_records = grouped_endpoint_candidates(collected.records);
    let ghost wanted = told_groups(all);
    let mut groups: Vec<EndpointCandidateGroup> = Vec::new();
    let mut i: usize = 0;
    while i < grouped_records.len()
        invariant
            i <= grouped_records@.len(),
            groups_view(grouped_records@) == grouped(told(all)),
            wanted == told_groups(all),
            forall|j: int|
                0 <= j < told(all).len() ==> (#[trigger] told(all)[j]).tag < all.len(),
            collected.sources@.len() == all.len(),
            forall|j: int|
                0 <= j < all.len() ==> (#[trigger] collected.sources@[j])@ == source_of(
                    all,
                    j as usize,
                ),
            groups@.len() == i,
            forall|j: int| 0 <= j < i ==> (#[trigger] groups@[j])@ == wanted[j],
        decreases grouped_records@.len() - i,
    {
        let ghost g = grouped(told(all))[i as int];
        proof {
            assert(groups_view(grouped_records@)[i as int] == g);
            assert(g.1 == chain_members(told(all), g.0));
            lemma_member_tags(told(all), g.0, all.len());
        }
        let endpoints = member_addresses(&grouped_records[i].1);
        let sources = distinct_sources(&grouped_records[i].1, &collected.sources, Ghost(all));
        groups.push(EndpointCandidateGroup { chain: grouped_records[i].0, endpoints, sources });
        assert(wanted[i as int] == groups@[i as int]@);
        i = i + 1;
    }
    assert(groups_view(grouped_records@).len() == grouped_records@.len());
    assert(views(groups@) =~= wanted);
    Ok(EndpointCandidates { groups: select_candidate_groups(groups, query) })
}

/// The certificate chains that a lookup asks for: the one that the name selects goes before
/// those that were asked for otherwise.
pub fn effective_query(sequence: Option<CertificateSequence>, query: SequenceQuery) -> (r:
    SequenceQuery)
    ensures
        r == (match sequence {
            Some(sequence) => SequenceQuery::Exact(sequence),
            None => query,
        }),
{
    match sequence {
        Some(sequence) => SequenceQuery::Exact(sequence),
        None => query,
    }
}

proof fn lemma_no_dot(host: Seq<char>)
    requires
        host.len() == 0 || host.last() != '.',
    ensures
        !"."@.is_suffix_of(host),
{
    reveal_strlit(".");
    if "."@.is_suffix_of(host) {
        assert(host.subrange(host.len() - 1, host.len() as int)[0] == host.last());
    }
}

/// Hosts of the DHTTP domain and local ones are looked up by mDNS, and no others. Those of the
/// domain may have a number that selects a certificate; local ones may end in a dot, and a
/// number behind them does not matter.
pub proof fn law_only_hosts_of_the_link_are_looked_up(host: Seq<char>, n: nat)
    requires
        !host.contains(':'),
        host.len() == 0 || host.last() != '.',
    ensures
        ({
            let dhttp = lowered(host) == "dhttp.net"@ || ".dhttp.net"@.is_suffix_of(lowered(host));
            let link = ".local"@.is_suffix_of(lowered(host));
            &&& !dns_name(host) || (!dhttp && !link) ==> {
                &&& mdns_host(host) is None
                &&& mdns_host(host + seq![':'] + decimal(n)) is None
                &&& mdns_host(host + seq!['.']) is None
            }
            &&& dns_name(host) && dhttp ==> {
                &&& mdns_host(host) == Some(host)
                &&& n <= 0x7fff_ffff ==> mdns_host(host + seq![':'] + decimal(n)) == Some(host)
                &&& n > 0x7fff_ffff ==> mdns_host(host + seq![':'] + decimal(n)) is None
            }
            &&& dns_name(host) && link && !dhttp ==> {
                &&& mdns_host(host) == Some(host)
                &&& mdns_host(host + seq![':'] + decimal(n)) == Some(host)
                &&& mdns_host(host + seq!['.']) == Some(host)
            }
        }),
{
    let numbered = host + seq![':'] + decimal(n);
    let dotted = host + seq!['.'];
    law_hosts_are_looked_up_with_or_without_a_number(host, n);
    law_other_hosts_are_not_looked_up(host, n);
    assert(!dotted.contains(':')) by {
        if dotted.contains(':') {
            let k = dotted.index_of(':');
            assert(host[k] == ':');
        }
    }
    law_hosts_are_looked_up_with_or_without_a_number(dotted, n);
    law_other_hosts_are_not_looked_up(dotted, n);
    lemma_no_dot(host);
    lemma_number_is_cut_off(host, n);
    lemma_number_is_cut_off(dotted, n);
    reveal_strlit(".");
    assert("."@ =~= dotted.subrange(dotted.len() - 1, dotted.len() as int));
    assert(dotted.take(dotted.len() - 1) =~= host);
    assert(undotted_host(dotted) == host);
}

/// Of the groups that are found, as many as asked for are kept from the front on, three where
/// nothing was asked for; or those of the sequence that was asked for.
pub proof fn law_groups_are_kept_as_asked_for(
    groups: Seq<CandidateGroupModel>,
    group: CandidateGroupModel,
    sequence: CertificateSequence,
    limit: usize,
    i: int,
)
    ensures
        asked_for(groups, SequenceQuery::All) == groups,
        asked_for(groups, SequenceQuery::Default) == asked_for(groups, SequenceQuery::Limit(3)),
        asked_for(groups, SequenceQuery::Limit(limit)).len() <= limit,
        asked_for(groups, SequenceQuery::Limit(limit)).len() <= groups.len(),
        asked_for(groups, SequenceQuery::Limit(limit)).len() == limit || asked_for(
            groups,
            SequenceQuery::Limit(limit),
        ).len() == groups.len(),
        0 <= i < asked_for(groups, SequenceQuery::Limit(limit)).len() ==> asked_for(
            groups,
            SequenceQuery::Limit(limit),
        )[i] == groups[i],
        asked_for(Seq::<CandidateGroupModel>::empty(), SequenceQuery::Exact(sequence)).len() == 0,
        group.chain.sequence == sequence ==> asked_for(
            seq![group] + groups,
            SequenceQuery::Exact(sequence),
        ) == seq![group] + asked_for(groups, SequenceQuery::Exact(sequence)),
        group.chain.sequence != sequence ==> asked_for(
            seq![group] + groups,
            SequenceQuery::Exact(sequence),
        ) == asked_for(groups, SequenceQuery::Exact(sequence)),
{
    lemma_filter_front(group, groups, of_sequence(sequence));
    reveal(Seq::filter);
}

/// What a further reply tells of follows what was told before, each endpoint under the number
/// of the reply. A failed reply tells of nothing.
pub proof fn law_replies_tell_in_order(replies: Seq<MdnsReply>, reply: MdnsReply, i: int)
    requires
        replies.len() < usize::MAX,
    ensures
        told(Seq::<MdnsReply>::empty()).len() == 0,
        reply is Err ==> told(replies.push(reply)) == told(replies),
        reply matches Ok((_, endpoints)) ==> {
            let before = told(replies);
            let after = told(replies.push(reply));
            &&& after.len() == before.len() + endpoints@.len()
            &&& 0 <= i < before.len() ==> after[i] == before[i]
            &&& 0 <= i < endpoints@.len() ==> {
                let told = after[before.len() + i];
                &&& told.record == endpoints@[i]
                &&& told.tag == replies.len()
                &&& told.fallback_chain_key is None
            }
        },
{
    assert(replies.push(reply).drop_last() =~= replies);
    assert(replies.push(reply).last() == reply);
}

/// The failure that is told is the last one.
pub proof fn law_the_last_failure_is_told(replies: Seq<MdnsReply>, i: int)
    ensures
        (forall|j: int| 0 <= j < replies.len() ==> (#[trigger] replies[j]) is Ok) ==> last_failure(
            replies,
        ) is None,
        0 <= i < replies.len() && replies[i] is Err && (forall|j: int|
            i < j < replies.len() ==> (#[trigger] replies[j]) is Ok) ==> last_failure(replies)
            == Some((replies[i]->Err_0)@),
    decreases replies.len(),
{
    if replies.len() > 0 {
        let front = replies.drop_last();
        law_the_last_failure_is_told(front, i);
        assert(replies.last() == replies[replies.len() - 1]);
        if forall|j: int| 0 <= j < replies.len() ==> (#[trigger] replies[j]) is Ok {
            assert forall|j: int| 0 <= j < front.len() implies (#[trigger] front[j]) is Ok by {
                assert(front[j] == replies[j]);
            }
        }
        if 0 <= i < front.len() && replies[i] is Err && (forall|j: int|
            i < j < replies.len() ==> (#[trigger] replies[j]) is Ok) {
            assert(front[i] == replies[i]);
            assert forall|j: int| i < j < front.len() implies (#[trigger] front[j]) is Ok by {
                assert(front[j] == replies[j]);
            }
            assert(replies[replies.len() - 1] is Ok);
        }
    }
}

/// The sources of members are those of the replies that told of them, each once, and those of
/// further members follow behind.
pub proof fn law_sources_are_named_once(
    members: Seq<(usize, EndpointAddr)>,
    member: (usize, EndpointAddr),
    replies: Seq<MdnsReply>,
)
    ensures
        member_sources(members, replies).no_duplicates(),
        forall|source: SourceModel| #[trigger]
            member_sources(members, replies).contains(source) <==> exists|i: int|
                0 <= i < members.len() && source_of(replies, (#[trigger] members[i]).0) == source,
        member_sources(members, replies).contains(source_of(replies, member.0)) ==> member_sources(
            members.push(member),
            replies,
        ) == member_sources(members, replies),
        !member_sources(members, replies).contains(source_of(replies, member.0)) ==> member_sources(
            members.push(member),
            replies,
        ) == member_sources(members, replies).push(source_of(replies, member.0)),
    decreases members.len(),
{
    assert(members.push(member).drop_last() =~= members);
    assert(members.push(member).last() == member);
    if members.len() > 0 {
        let front = members.drop_last();
        law_sources_are_named_once(front, member, replies);
        let known = member_sources(front, replies);
        let all = member_sources(members, replies);
        let last = source_of(replies, members.last().0);
        assert forall|source: SourceModel| #[trigger] all.contains(source) <==> exists|i: int|
            0 <= i < members.len() && source_of(replies, (#[trigger] members[i]).0) == source by {
            if all.contains(source) {
                let k = all.index_of(source);
                if k < known.len() {
                    assert(known.contains(source)) by {
                        assert(known[k] == source);
                    }
                    let i = choose|i: int|
                        0 <= i < front.len() && source_of(replies, (#[trigger] front[i]).0)
                            == source;
                    assert(members[i] == front[i]);
                } else {
                    assert(members[members.len() - 1] == members.last());
                }
            }
            if exists|i: int|
                0 <= i < members.len() && source_of(replies, (#[trigger] members[i]).0) == source {
                let i = choose|i: int|
                    0 <= i < members.len() && source_of(replies, (#[trigger] members[i]).0)
                        == source;
                if i < front.len() {
                    assert(front[i] == members[i]);
                    assert(known.contains(source));
                    assert(all[known.index_of(source)] == source);
                } else if known.contains(last) {
                    assert(all == known);
                } else {
                    assert(all[known.len() as int] == source);
                }
            }
        }
    }
}

/// A member is found with the source of the reply that told of it, and at its own address.
pub proof fn law_members_are_found_with_their_source(
    members: Seq<(usize, EndpointAddr)>,
    replies: Seq<MdnsReply>,
    i: int,
)
    ensures
        named_members(members, replies).len() == members.len(),
        0 <= i < members.len() && 0 <= members[i].0 < replies.len() ==> {
            let found = named_members(members, replies)[i];
            &&& found.1 == members[i].1
            &&& replies[members[i].0 as int] matches Ok((source, _)) ==> found.0 == source@
        },
{
}

/// The groups that replies tell of are those of what they told, with the addresses of their
/// members and the sources of these.
pub proof fn law_told_groups_have_addresses_and_sources(replies: Seq<MdnsReply>, i: int, n: int)
    ensures
        told_groups(replies).len() == grouped(told(replies)).len(),
        0 <= i < told_groups(replies).len() ==> {
            let group = told_groups(replies)[i];
            let members = grouped(told(replies))[i].1;
            &&& group.chain == grouped(told(replies))[i].0
            &&& group.endpoints.len() == members.len()
            &&& 0 <= n < members.len() ==> group.endpoints[n] == members[n].1
            &&& 0 <= n < members.len() ==> group.sources.contains(source_of(replies, members[n].0))
        },
{
    if 0 <= i < told_groups(replies).len() {
        let members = grouped(told(replies))[i].1;
        if 0 <= n < members.len() {
            law_sources_are_named_once(members, members[n], replies);
        }
    }
}

/// What is found is told as it is, in order.
pub proof fn law_found_endpoints_are_told_as_they_are(found: Seq<(Source, EndpointAddr)>, i: int)
    ensures
        found_view(found).len() == found.len(),
        0 <= i < found.len() ==> found_view(found)[i].0 == found[i].0@ && found_view(found)[i].1
            == found[i].1,
{
}

} // verus!
