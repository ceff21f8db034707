//! Names in the local network.
use ddns::mdns::lookup::{
    authority_host, effective_query, is_dhttp_authority_host, is_local_mdns_host,
    mdns_lookup_parts, merge_candidates, merge_queries, normalized_authority_host,
    select_candidate_groups, MdnsReply,
};
use ddns::mdns::service::{
    answer_endpoints, binding_source, contains_text, local_name, mdns_endpoints,
    needs_rebinding, HostTable,
};
use ddns::net::{EndpointAddr, Family, IpAddress, SocketAddress, Source};
use ddns::protocol::certificate::{primary_chain_key, CertificateSequence};
use ddns::protocol::packet::Endpoint;
use ddns::report::ErrorReport;
use ddns::resolvers::endpoint_candidates::{
    EndpointCandidateGroup, EndpointLookup, SequenceQuery,
};

fn group(sequence: u8) -> EndpointCandidateGroup {
    EndpointCandidateGroup {
        chain: primary_chain_key(CertificateSequence::from_small(sequence)),
        endpoints: Vec::new(),
        sources: Vec::new(),
    }
}

fn socket(last: u8) -> SocketAddress {
    SocketAddress::V4 { ip: u32::from_be_bytes([192, 0, 2, last]), port: 4433 }
}

fn endpoint(last: u8, sequence: u8) -> Endpoint {
    let mut endpoint = Endpoint::direct(socket(last));
    endpoint.main = true;
    endpoint.sequence = Some(CertificateSequence::from_small(sequence));
    endpoint
}

fn source(nic: &str) -> Source {
    Source::Mdns { nic: nic.to_string(), family: Family::V4 }
}

#[test]
fn mdns_candidate_selection_applies_sequence_query_locally() {
    let groups = || vec![group(2), group(1), group(3), group(4)];
    let sequences = |groups: Vec<EndpointCandidateGroup>| {
        groups.into_iter().map(|group| group.chain.sequence.get()).collect::<Vec<_>>()
    };

    assert_eq!(
        sequences(select_candidate_groups(groups(), SequenceQuery::Default)),
        vec![2, 1, 3]
    );
    assert_eq!(
        sequences(select_candidate_groups(groups(), SequenceQuery::Limit(2))),
        vec![2, 1]
    );
    assert_eq!(
        sequences(select_candidate_groups(
            groups(),
            SequenceQuery::Exact(CertificateSequence::from_small(3)),
        )),
        vec![3]
    );
    assert_eq!(
        sequences(select_candidate_groups(groups(), SequenceQuery::All)),
        vec![2, 1, 3, 4]
    );

    let lookup = EndpointLookup::all().with_record_limit(1);
    assert_eq!(
        sequences(select_candidate_groups(groups(), lookup.sequences)),
        vec![2, 1, 3, 4]
    );
}

#[test]
fn mdns_lookup_scope_accepts_only_dhttp_and_local_names() {
    assert_eq!(mdns_lookup_parts("printer.local"), Some(("printer.local", None)));
    assert_eq!(mdns_lookup_parts("Printer.LOCAL.:8080"), Some(("Printer.LOCAL", None)));

    let (name, sequence) =
        mdns_lookup_parts("node.dhttp.net:2").expect("DHTTP endpoint is in scope");
    assert_eq!(name, "node.dhttp.net");
    assert_eq!(sequence, Some(CertificateSequence::from_small(2)));

    for name in [
        "nat.genmeta.net",
        "notlocal",
        "printer.notlocal",
        "local.example",
        "127.0.0.1",
        "[::1]:443",
    ] {
        assert_eq!(mdns_lookup_parts(name), None);
    }
}

#[test]
fn hosts_are_read_from_authorities() {
    assert_eq!(authority_host("user@a.local:80"), "user@a.local");
    assert_eq!(authority_host("[::1]:80"), "[::1]");
    assert_eq!(authority_host("a.local:name"), "a.local:name");
    assert_eq!(normalized_authority_host("a.local.:80"), Some("a.local"));
    assert_eq!(normalized_authority_host("127.0.0.1"), None);
    assert!(is_dhttp_authority_host("node.DHTTP.net"));
    assert!(!is_dhttp_authority_host("notdhttp.net"));
    assert!(is_local_mdns_host("a.LOCAL"));
    assert!(!is_local_mdns_host("alocal"));
}

#[test]
fn a_selector_in_the_name_goes_first() {
    let three = CertificateSequence::from_small(3);
    assert_eq!(
        effective_query(Some(three), SequenceQuery::All),
        SequenceQuery::Exact(three)
    );
    assert_eq!(effective_query(None, SequenceQuery::All), SequenceQuery::All);
}

#[test]
fn bindings_answer_together() {
    let replies = || -> Vec<MdnsReply> {
        vec![
            Err(ErrorReport::plain("timed out")),
            Ok((source("en0"), vec![endpoint(1, 2), endpoint(2, 1)])),
            Ok((source("en1"), vec![endpoint(3, 2)])),
        ]
    };
    let direct = |last: u8| EndpointAddr::direct(socket(last));

    assert_eq!(
        merge_queries(replies(), None),
        Ok(vec![(source("en0"), direct(1)), (source("en1"), direct(3))])
    );
    assert_eq!(
        merge_queries(replies(), Some(CertificateSequence::from_small(1))),
        Ok(vec![(source("en0"), direct(2))])
    );

    let candidates = merge_candidates(replies(), SequenceQuery::Default).unwrap();
    assert_eq!(candidates.groups.len(), 2);
    assert_eq!(candidates.groups[0].chain.label(), "primary:2");
    assert_eq!(candidates.groups[0].endpoints, vec![direct(1), direct(3)]);
    assert_eq!(candidates.groups[0].sources, vec![source("en0"), source("en1")]);
    assert_eq!(candidates.groups[1].sources, vec![source("en0")]);
}

#[test]
fn bindings_that_all_fail_tell_why() {
    assert_eq!(
        merge_queries(Vec::new(), None),
        Err(ErrorReport::plain("no mdns resolvers available"))
    );
    let failed = || -> Vec<MdnsReply> {
        vec![Err(ErrorReport::plain("first")), Err(ErrorReport::plain("last"))]
    };
    assert_eq!(merge_queries(failed(), None), Err(ErrorReport::plain("last")));
    assert_eq!(
        merge_candidates(failed(), SequenceQuery::All),
        Err(ErrorReport::plain("last"))
    );
    assert_eq!(
        merge_candidates(vec![Ok((source("en0"), Vec::new()))], SequenceQuery::All),
        Err(ErrorReport::plain("no DNS record found"))
    );
}

#[test]
fn local_name_uses_dhttp_identity_suffix() {
    assert_eq!(
        local_name("_gensokyo.local", "reimu.pilot.dhttp.net"),
        "reimu.pilot._gensokyo.local"
    );
}

#[test]
fn other_names_are_kept() {
    assert_eq!(local_name("_gensokyo.local", "printer.local"), "printer.local");
    assert!(contains_text("reimu.pilot", "u.p"));
    assert!(contains_text("reimu", ""));
    assert!(!contains_text("reimu", "reimu.pilot"));
}

#[test]
fn hosts_are_served_until_they_are_removed() {
    let mut table = HostTable::new("_dhttp.local");
    let local = table.insert_host("reimu.dhttp.net", vec![endpoint(1, 0)]);
    assert_eq!(local, "reimu._dhttp.local");
    assert_eq!(table.published_endpoints("reimu.dhttp.net"), Some(vec![endpoint(1, 0)]));
    table.insert_host("reimu.dhttp.net", vec![endpoint(2, 0)]);
    assert_eq!(table.published_endpoints("reimu.dhttp.net"), Some(vec![endpoint(2, 0)]));

    assert!(table.answers(&vec!["x".to_string(), "reimu._dhttp.local".to_string()]));
    assert!(table.answers(&vec!["_dhttp.local".to_string()]));
    assert!(!table.answers(&vec!["marisa._dhttp.local".to_string()]));

    table.remove_host(&local);
    assert_eq!(table.published_endpoints("reimu.dhttp.net"), None);
}

#[test]
fn bindings_are_known_by_device_and_address() {
    assert_eq!(binding_source("en0", IpAddress::V4(1)), source("en0"));
    assert_eq!(
        binding_source("en0", IpAddress::V6(1)),
        Source::Mdns { nic: "en0".to_string(), family: Family::V6 }
    );
    assert!(!needs_rebinding("en0", IpAddress::V4(1), "en0", IpAddress::V4(1)));
    assert!(needs_rebinding("en0", IpAddress::V4(1), "en1", IpAddress::V4(1)));
    assert!(needs_rebinding("en0", IpAddress::V4(1), "en0", IpAddress::V6(1)));
}

#[test]
fn the_endpoint_that_answered_goes_first() {
    let endpoints = vec![endpoint(1, 0), endpoint(2, 0), endpoint(3, 0)];
    assert_eq!(
        answer_endpoints(IpAddress::V4(u32::from_be_bytes([192, 0, 2, 3])), endpoints.clone()),
        Ok(vec![endpoint(3, 0), endpoint(2, 0), endpoint(1, 0)])
    );
    assert_eq!(answer_endpoints(IpAddress::V4(7), endpoints.clone()), Ok(endpoints));
    assert_eq!(
        answer_endpoints(IpAddress::V4(7), Vec::new()),
        Err(ErrorReport::plain("empty dns result"))
    );
    assert!(mdns_endpoints(&vec![None]).is_err());
    assert_eq!(mdns_endpoints(&vec![Some(endpoint(1, 0))]), Ok(vec![endpoint(1, 0)]));
}
