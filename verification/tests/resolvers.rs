//! Resolution of names.
use std::str::FromStr;
use std::sync::Arc;

use ddns::h3::lookup::{server_source, server_url};
use ddns::http::resolver_label;
use ddns::net::{EndpointAddr, SocketAddress, Source};
use ddns::protocol::certificate::{
    CertificateChainKey, CertificateChainKind, CertificateSequence,
};
use ddns::protocol::packet::Endpoint;
use ddns::report::ErrorReport;
use ddns::resolvers::aggregate::{
    merge_endpoint_candidates, merge_lookups, CandidateReply, Resolvers, ResolversError,
};
use ddns::resolvers::deferred::{
    deferred_label, deferred_lookup, deferred_publish, DeferredLookupError, DeferredPublishError,
    DeferredResolver, SetDeferredResolverError,
};
use ddns::resolvers::endpoint_candidates::{
    effective_chain_key, grouped_endpoint_candidates, member_addresses, server_groups,
    EndpointCandidateGroup, EndpointLookup, SequenceQuery, TaggedEndpointCandidate,
};
use ddns::resolvers::endpoint_group;
use ddns::resolvers::names::{
    endpoint_lookup_name_and_sequence, resolvable_name, DHTTP_H3_DNS_SERVER,
    DHTTP_HTTP_DNS_SERVER, DHTTP_MDNS_SERVICE,
};
use ddns::resolvers::scheme::DnsScheme;
use ddns::resolvers::selector;
use ddns::resolvers::weak::{
    weak_label, weak_lookup, weak_publish, WeakLookupError, WeakPublishError, WeakResolver,
};

fn socket(addr: &str) -> SocketAddress {
    let (ip, port) = addr.split_once(':').expect("socket addr");
    let ip = ip.split('.').fold(0, |ip, part| ip << 8 | part.parse::<u32>().unwrap());
    SocketAddress::V4 { ip, port: port.parse().unwrap() }
}

fn address(addr: &str) -> EndpointAddr {
    EndpointAddr::direct(socket(addr))
}

fn direct(addr: &str, main: bool, sequence: u32) -> Endpoint {
    let mut endpoint = Endpoint::direct(socket(addr));
    endpoint.main = main;
    endpoint.sequence = CertificateSequence::new(sequence as u64);
    endpoint
}

fn candidate(tag: &'static str, record: Endpoint) -> TaggedEndpointCandidate<&'static str> {
    TaggedEndpointCandidate { tag, record, fallback_chain_key: None }
}

fn primary(sequence: u8) -> CertificateChainKey {
    CertificateChainKey::new(
        CertificateSequence::from_small(sequence),
        CertificateChainKind::Primary,
    )
}

#[test]
fn resolver_defaults_come_from_compile_time_environment() {
    assert_eq!(DHTTP_H3_DNS_SERVER, "https://dns.genmeta.net:4433");
    assert_eq!(DHTTP_HTTP_DNS_SERVER, "https://dns.genmeta.net");
    assert_eq!(DHTTP_MDNS_SERVICE, "_dhttp.local");

    for server in [DHTTP_H3_DNS_SERVER, DHTTP_HTTP_DNS_SERVER] {
        let url = server_url(server).expect("a server is named by a URL with a host");
        assert_eq!(url.host.as_deref(), Some("dns.genmeta.net"));
    }
    assert_eq!(
        server_source(DHTTP_H3_DNS_SERVER),
        Ok(Source::H3 { server: DHTTP_H3_DNS_SERVER.to_string() })
    );
}

#[test]
fn resolvable_name_accepts_dns_name_with_numeric_port() {
    assert_eq!(resolvable_name("example.dhttp.net:443"), Some("example.dhttp.net"));
}

#[test]
fn resolvable_name_accepts_stun_authority_with_numeric_port() {
    assert_eq!(resolvable_name("nat.genmeta.net:20004"), Some("nat.genmeta.net"));
}

#[test]
fn resolvable_name_rejects_ip_literals() {
    assert_eq!(resolvable_name("127.0.0.1:443"), None);
    assert_eq!(resolvable_name("[::1]:443"), None);
}

#[test]
fn resolvable_name_rejects_what_is_no_name() {
    assert_eq!(resolvable_name(""), None);
    assert_eq!(resolvable_name("a b.net"), None);
    assert_eq!(resolvable_name("a_b.net"), Some("a_b.net"));
}

#[test]
fn endpoint_lookup_name_and_sequence_accepts_plain_name() {
    let (name, sequence) =
        endpoint_lookup_name_and_sequence("example.dhttp.net").expect("dns name");

    assert_eq!(name, "example.dhttp.net");
    assert_eq!(sequence, None);
}

#[test]
fn endpoint_lookup_name_and_sequence_parses_numeric_selector() {
    let (name, sequence) =
        endpoint_lookup_name_and_sequence("reimu.hakurei.dhttp.net:1").expect("dns name");

    assert_eq!(name, "reimu.hakurei.dhttp.net");
    assert_eq!(sequence.map(CertificateSequence::get), Some(1));
}

#[test]
fn endpoint_lookup_name_and_sequence_rejects_out_of_range_selector() {
    let invalid = format!("example.dhttp.net:{}", (1u64 << 62) + 1);

    assert_eq!(endpoint_lookup_name_and_sequence(&invalid), None);
}

#[test]
fn aggregate_endpoint_candidates_preserve_resolver_order() {
    let resolvers = Resolvers::new()
        .with_candidate_resolver("a".to_string())
        .with_candidate_resolver("b".to_string());
    assert_eq!(resolvers.text(), "Resolvers(a, b)");

    let found = |sequence: u8| {
        CandidateReply::Found(vec![EndpointCandidateGroup {
            chain: primary(sequence),
            endpoints: Vec::new(),
            sources: vec![Source::Dht],
        }])
    };
    let candidates = merge_endpoint_candidates(vec![
        ("a".to_string(), found(1)),
        ("b".to_string(), found(0)),
    ])
    .expect("candidate lookup succeeds");

    assert_eq!(candidates.groups.len(), 2);
    assert_eq!(candidates.groups[0].chain.label(), "primary:1");
    assert_eq!(candidates.groups[1].chain.label(), "primary:0");
}

#[test]
fn aggregate_endpoint_candidates_tell_of_failures_without_groups() {
    let failed = ErrorReport::plain("offline");
    let error = merge_endpoint_candidates(vec![
        ("a".to_string(), CandidateReply::Unsupported),
        ("b".to_string(), CandidateReply::Failed(failed)),
    ])
    .unwrap_err();
    assert_eq!(
        error.message(),
        "all DNS resolvers failed\n  - a: resolver does not support endpoint candidate \
         lookup\n  - b: offline"
    );
    assert!(merge_endpoint_candidates(Vec::new()).unwrap().groups.is_empty());
}

#[test]
fn lookups_succeed_where_one_does() {
    let found = || vec![(Source::System, address("192.0.2.1:1"))];
    let failed = || Err(ErrorReport::plain("offline"));
    assert_eq!(
        merge_lookups(vec![("a".to_string(), failed()), ("b".to_string(), Ok(found()))]),
        Ok(found())
    );
    let error = merge_lookups(vec![("a".to_string(), failed())]).unwrap_err();
    assert_eq!(error.message(), "all DNS resolvers failed\n  - a: offline");
    assert_eq!(
        merge_lookups(Vec::new()).unwrap_err().message(),
        "no DNS resolvers available"
    );
}

#[test]
fn dns_scheme_round_trips_supported_schemes_and_rejects_dht() {
    let cases = [
        ("mdns", DnsScheme::Mdns),
        ("http", DnsScheme::Http),
        ("h3", DnsScheme::H3),
        ("system", DnsScheme::System),
    ];

    for (text, scheme) in cases {
        assert_eq!(DnsScheme::from_str(text).expect("supported scheme"), scheme);
        assert_eq!(DnsScheme::parse(text).expect("supported scheme"), scheme);
        assert_eq!(scheme.as_str(), text);
    }

    assert!(DnsScheme::from_str("dht").is_err());
}

#[test]
fn resolvers_error_renders_no_resolvers_available_when_empty() {
    let error = ResolversError { errors: vec![] };

    assert_eq!(error.message(), "no DNS resolvers available");
}

#[test]
fn resolvers_error_renders_resolver_bullets_in_stored_order() {
    let error = ResolversError {
        errors: vec![
            (
                "System DNS Resolver".to_string(),
                ErrorReport::plain("invalid socket address"),
            ),
            ("mDNS resolvers".to_string(), ErrorReport::plain("timed out")),
        ],
    };

    assert_eq!(
        error.message(),
        "all DNS resolvers failed\n\
         \x20 - System DNS Resolver: invalid socket address\n\
         \x20 - mDNS resolvers: timed out"
    );
}

#[test]
fn resolvers_error_renders_numbered_source_chain_for_one_resolver() {
    let error = ResolversError {
        errors: vec![(
            "DeferredResolver(H3 DNS Resolver(https://dns.genmeta.net:4433/))".to_string(),
            ErrorReport {
                message: "deferred resolver lookup failed".to_string(),
                sources: vec!["no DNS record found".to_string()],
            },
        )],
    };

    assert_eq!(
        error.message(),
        "all DNS resolvers failed\n\
         \x20 - DeferredResolver(H3 DNS Resolver(https://dns.genmeta.net:4433/)): deferred \
         resolver lookup failed\n\
         \x20   1. no DNS record found"
    );
}

#[test]
fn resolvers_error_renders_repeated_source_messages_without_deduplication() {
    let error = ResolversError {
        errors: vec![(
            "DeferredResolver(H3 DNS Resolver(https://dns.genmeta.net:4433/))".to_string(),
            ErrorReport {
                message: "deferred resolver lookup failed".to_string(),
                sources: vec![
                    "deferred resolver lookup failed".to_string(),
                    "no DNS record found".to_string(),
                ],
            },
        )],
    };

    assert_eq!(
        error.message(),
        "all DNS resolvers failed\n\
         \x20 - DeferredResolver(H3 DNS Resolver(https://dns.genmeta.net:4433/)): deferred \
         resolver lookup failed\n\
         \x20   1. deferred resolver lookup failed\n\
         \x20   2. no DNS record found"
    );
}

#[test]
fn resolvers_builder_accepts_custom_http_base_url() {
    let url = ddns::foreign::UrlParts::parse("https://custom-dns.example")
        .expect("valid http dns url");
    let resolvers = Resolvers::new().with(resolver_label(&url));

    assert!(resolvers.text().contains("custom-dns.example"));
}

#[test]
fn resolvers_builder_accepts_custom_h3_base_url() {
    let url = ddns::h3::lookup::server_url("https://custom-dns.example:4433")
        .expect("valid h3 dns url");
    let resolvers = Resolvers::new()
        .with_candidate_resolver(ddns::h3::lookup::resolver_label(&url));

    assert!(resolvers.text().contains("custom-dns.example"));
}

struct TestResolver;

impl TestResolver {
    fn lookup(&self, _name: &str) -> Result<Vec<(Source, EndpointAddr)>, ErrorReport> {
        Ok(vec![(Source::System, address("127.0.0.1:4433"))])
    }

    fn publish(&self) -> Result<(), ErrorReport> {
        Ok(())
    }
}

#[test]
fn lookup_before_set_returns_typed_uninitialized_error() {
    let resolver: DeferredResolver<TestResolver> = DeferredResolver::new();

    let error = deferred_lookup(resolver.get().map(|inner| inner.lookup("example.test")))
        .expect_err("uninitialized resolver must not resolve");

    assert!(matches!(error, DeferredLookupError::Uninitialized));
    assert_eq!(error.message(), "deferred resolver has not been initialized");
}

#[test]
fn lookup_after_set_forwards_to_inner_resolver() {
    let mut resolver = DeferredResolver::new();
    resolver.set(TestResolver).expect("first set succeeds");

    let found =
        deferred_lookup(resolver.get().map(|inner| inner.lookup("example.test"))).unwrap();

    assert_eq!(found[0].1, address("127.0.0.1:4433"));
}

#[test]
fn publish_after_set_forwards_to_inner_resolver() {
    let mut resolver = DeferredResolver::new();
    resolver.set(TestResolver).expect("first set succeeds");

    deferred_publish(resolver.get().map(TestResolver::publish)).unwrap();
}

#[test]
fn a_deferred_resolver_is_set_once() {
    let mut resolver: DeferredResolver<u8> = DeferredResolver::new();
    assert_eq!(deferred_label(None), "DeferredResolver(uninitialized)");
    assert_eq!(resolver.set(1), Ok(()));
    assert_eq!(resolver.set(2), Err(SetDeferredResolverError::AlreadyInitialized));
    assert_eq!(resolver.get(), Some(&1));
    assert_eq!(deferred_label(Some("x")), "DeferredResolver(x)");
    assert_eq!(deferred_publish(None), Err(DeferredPublishError::Uninitialized));
    let failed = deferred_lookup::<()>(Some(Err(ErrorReport::plain("offline")))).unwrap_err();
    assert_eq!(failed.message(), "deferred resolver lookup failed");
}

#[test]
fn lookup_after_target_drop_returns_typed_error() {
    let strong = Arc::new(TestResolver);
    let weak = Arc::downgrade(&strong);
    let resolver = WeakResolver::new(move || weak.upgrade());
    drop(strong);

    let error = match resolver.upgrade() {
        Ok(_) => panic!("dropped weak resolver must not resolve"),
        Err(error) => error,
    };

    assert!(matches!(error, WeakLookupError::Dropped));
}

#[test]
fn lookup_forwards_while_target_is_alive() {
    let strong = Arc::new(TestResolver);
    let weak = Arc::downgrade(&strong);
    let resolver = WeakResolver::new(move || weak.upgrade());

    let inner = resolver.upgrade().unwrap();
    let found = weak_lookup(Some(inner.lookup("example.test"))).unwrap();

    assert_eq!(found[0].1, address("127.0.0.1:4433"));
}

#[test]
fn a_weak_resolver_gives_its_target_and_keeps_nothing_alive() {
    let strong = Arc::new(TestResolver);
    let weak = Arc::downgrade(&strong);
    let resolver = WeakResolver::new(move || weak.upgrade());

    let inner = resolver.upgrade().unwrap();
    assert!(Arc::ptr_eq(&inner, &strong));
    drop(inner);
    assert_eq!(Arc::strong_count(&strong), 1);

    drop(strong);
    for _ in 0..2 {
        assert!(matches!(resolver.upgrade(), Err(WeakLookupError::Dropped)));
    }
}

#[test]
fn publish_forwards_while_target_is_alive() {
    let strong = Arc::new(TestResolver);
    let weak = Arc::downgrade(&strong);
    let resolver = WeakResolver::new(move || weak.upgrade());

    let inner = resolver.upgrade().unwrap();
    weak_publish(Some(inner.publish())).unwrap();
    assert_eq!(weak_label(Some("x")), "WeakResolver(x)");
    assert_eq!(weak_label(None), "WeakResolver(dropped)");
    assert_eq!(weak_publish(None), Err(WeakPublishError::Dropped));
}

#[test]
fn endpoint_lookup_constructors_encode_valid_states() {
    let one = 1;
    let exact = CertificateSequence::from_small(2);

    assert_eq!(EndpointLookup::default().sequences, SequenceQuery::Default);
    assert_eq!(EndpointLookup::exact(exact).sequences, SequenceQuery::Exact(exact));
    assert_eq!(EndpointLookup::limit(one).sequences, SequenceQuery::Limit(one));
    assert_eq!(EndpointLookup::all().sequences, SequenceQuery::All);
    assert_eq!(EndpointLookup::all().with_record_limit(one).record_limit, Some(one));
}

#[test]
fn grouping_preserves_input_order_between_primary_sequences() {
    let groups = grouped_endpoint_candidates(vec![
        candidate("wifi", direct("192.0.2.10:4433", true, 2)),
        candidate("ethernet", direct("192.0.2.20:4433", true, 1)),
        candidate("wifi-backup", direct("192.0.2.11:4433", true, 2)),
    ]);

    assert_eq!(groups.len(), 2);
    assert_eq!(groups[0].0.label(), "primary:2");
    assert_eq!(groups[0].1.len(), 2);
    assert_eq!(groups[1].0.label(), "primary:1");
    assert_eq!(groups[1].1.len(), 1);
}

#[test]
fn grouping_uses_fallback_chain_key_for_unmarked_endpoint() {
    let endpoint = Endpoint::direct(socket("192.0.2.60:4433"));
    let groups = grouped_endpoint_candidates(vec![TaggedEndpointCandidate {
        tag: "h3",
        record: endpoint,
        fallback_chain_key: Some(primary(3)),
    }]);

    assert_eq!(groups.len(), 1);
    assert_eq!(groups[0].0.label(), "primary:3");
    assert_eq!(groups[0].1[0].0, "h3");
    assert_eq!(effective_chain_key(&endpoint, None).label(), "secondary:0");
}

#[test]
fn groups_of_a_server_name_it() {
    let groups = grouped_endpoint_candidates(vec![TaggedEndpointCandidate {
        tag: (),
        record: direct("192.0.2.10:4433", true, 2),
        fallback_chain_key: None,
    }]);
    assert_eq!(member_addresses(&groups[0].1), vec![address("192.0.2.10:4433")]);
    let source = Source::H3 { server: "https://dns.genmeta.net:4433".to_string() };
    let named = server_groups(&groups, &source).groups;
    assert_eq!(named.len(), 1);
    assert_eq!(named[0].chain, primary(2));
    assert_eq!(named[0].endpoints, vec![address("192.0.2.10:4433")]);
    assert_eq!(named[0].sources, vec![source]);
}

#[test]
fn selected_endpoint_addrs_uses_first_chain_key_group() {
    let secondary = direct("192.0.2.20:4433", false, 0);
    let primary_a = direct("192.0.2.10:4433", true, 2);
    let primary_b = direct("192.0.2.11:4433", true, 2);

    let selected = endpoint_group::selected_endpoint_addrs(&vec![secondary, primary_a, primary_b]);

    assert_eq!(selected.len(), 1);
    assert_eq!(selected[0], address("192.0.2.20:4433"));
}

#[test]
fn selected_endpoint_addrs_uses_one_secondary_chain_key_group_when_no_primary_exists() {
    let secondary_a = direct("192.0.2.20:4433", false, 5);
    let secondary_b = direct("192.0.2.21:4433", false, 5);
    let other_secondary = direct("192.0.2.30:4433", false, 6);

    let selected =
        endpoint_group::selected_endpoint_addrs(&vec![secondary_a, secondary_b, other_secondary]);

    assert_eq!(selected.len(), 2);
    assert_eq!(selected[0], address("192.0.2.20:4433"));
    assert_eq!(selected[1], address("192.0.2.21:4433"));
}

#[test]
fn endpoint_group_selected_endpoint_addrs_treats_missing_sequence_as_zero() {
    let mut first = direct("192.0.2.40:4433", true, 0);
    first.sequence = None;
    let second = direct("192.0.2.41:4433", true, 0);

    let selected = endpoint_group::selected_endpoint_addrs(&vec![first, second]);

    assert_eq!(selected.len(), 2);
}

#[test]
fn selected_endpoint_records_uses_one_chain_key_across_sources() {
    let selected = endpoint_group::selected_endpoint_records(vec![
        ("wifi", direct("192.0.2.50:4433", true, 3)),
        ("ethernet", direct("192.0.2.51:4433", true, 4)),
        ("wifi", direct("192.0.2.52:4433", true, 3)),
    ]);

    assert_eq!(selected.len(), 2);
    assert_eq!(selected[0].0, "wifi");
    assert_eq!(selected[0].1, address("192.0.2.50:4433"));
    assert_eq!(selected[1].0, "wifi");
    assert_eq!(selected[1].1, address("192.0.2.52:4433"));
}

#[test]
fn selected_endpoint_addrs_for_sequence_filters_requested_primary_group() {
    let selected = endpoint_group::selected_endpoint_addrs_for_sequence(
        &vec![
            direct("192.0.2.10:4433", true, 0),
            direct("192.0.2.11:4433", true, 0),
            direct("192.0.2.20:4433", true, 1),
            direct("192.0.2.30:4433", false, 1),
        ],
        Some(CertificateSequence::from_small(1)),
    );

    assert_eq!(selected, vec![address("192.0.2.20:4433")]);
}

#[test]
fn selected_endpoint_addrs_for_sequence_returns_empty_when_primary_sequence_missing() {
    let selected = endpoint_group::selected_endpoint_addrs_for_sequence(
        &vec![direct("192.0.2.10:4433", true, 0), direct("192.0.2.20:4433", false, 2)],
        Some(CertificateSequence::from_small(9)),
    );

    assert!(selected.is_empty());
}

#[test]
fn selected_endpoint_records_for_sequence_uses_fallback_chain_key_when_packet_omits_it() {
    let endpoint = Endpoint::direct(socket("192.0.2.60:4433"));
    let selected = endpoint_group::selected_endpoint_records_with_fallback_chain_keys(
        vec![TaggedEndpointCandidate {
            tag: "wifi",
            record: endpoint,
            fallback_chain_key: Some(primary(1)),
        }],
        Some(CertificateSequence::from_small(1)),
    );

    assert_eq!(selected.len(), 1);
    assert_eq!(selected[0].0, "wifi");
    assert_eq!(selected[0].1, address("192.0.2.60:4433"));
}

#[test]
fn selected_endpoint_addrs_prefers_primary_group() {
    let secondary = direct("192.0.2.20:4433", false, 0);
    let primary_a = direct("192.0.2.10:4433", true, 2);
    let primary_b = direct("192.0.2.11:4433", true, 2);

    let selected = selector::selected_endpoint_addrs(&vec![secondary, primary_a, primary_b]);

    assert_eq!(selected.len(), 2);
    assert_eq!(selected[0], address("192.0.2.10:4433"));
    assert_eq!(selected[1], address("192.0.2.11:4433"));
}

#[test]
fn selected_endpoint_addrs_uses_one_secondary_group_when_no_primary_exists() {
    let secondary_a = direct("192.0.2.20:4433", false, 5);
    let secondary_b = direct("192.0.2.21:4433", false, 5);
    let other_secondary = direct("192.0.2.30:4433", false, 6);

    let selected =
        selector::selected_endpoint_addrs(&vec![secondary_a, secondary_b, other_secondary]);

    assert_eq!(selected.len(), 2);
    assert_eq!(selected[0], address("192.0.2.20:4433"));
    assert_eq!(selected[1], address("192.0.2.21:4433"));
}

#[test]
fn selector_selected_endpoint_addrs_treats_missing_sequence_as_zero() {
    let mut first = direct("192.0.2.40:4433", true, 0);
    first.sequence = None;
    let second = direct("192.0.2.41:4433", true, 0);

    let selected = selector::selected_endpoint_addrs(&vec![first, second]);

    assert_eq!(selected.len(), 2);
}

#[test]
fn selected_endpoint_records_uses_one_group_across_sources() {
    let selected = selector::selected_endpoint_records(vec![
        ("wifi", direct("192.0.2.50:4433", true, 3)),
        ("ethernet", direct("192.0.2.51:4433", true, 4)),
        ("wifi", direct("192.0.2.52:4433", true, 3)),
    ]);

    assert_eq!(selected.len(), 2);
    assert_eq!(selected[0].0, "wifi");
    assert_eq!(selected[0].1, address("192.0.2.50:4433"));
    assert_eq!(selected[1].0, "wifi");
    assert_eq!(selected[1].1, address("192.0.2.52:4433"));
}
