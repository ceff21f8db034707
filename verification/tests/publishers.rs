//! Publication of endpoints.
use std::sync::Arc;

use ddns::mdns::service::HostTable;
use ddns::net::{EndpointAddr, Family, SocketAddress};
use ddns::protocol::certificate::{
    CertificateChainKey, CertificateChainKind, CertificateSequence,
};
use ddns::protocol::packet::Endpoint;
use ddns::publisher::{
    clears_publish_state, location_event_requires_publish, on_loop_event, publish_once,
    publish_single_resolver, CreatePublisherError, EndpointRecordSigner, LocationEvent,
    LocationKind, LoopAction, PublishOnceError, PublishOptions, ResolverKind,
    SignEndpointRecordsError,
};
use ddns::publishers::address::{
    publish_endpoint_from_stun, AddressSelector, AddressView, BindingAddress,
    EndpointBindingAddressView, FnAddressView, NatState, PublishAddresses, PublishScope,
    StunClient,
};
use ddns::publishers::aggregate::{merge_publications, PublishReport};
use ddns::publishers::packet::{
    endpoint_packet, endpoint_packet_with_chain_key, EncodeEndpointPacketError,
};
use ddns::publishers::publisher::{
    binding_scope, dns_endpoints_for_authority, mdns_authority, publish_on_binding,
    publish_selected_outcome, selected_addresses, MdnsPublishersError,
    PublisherError,
};
use ddns::publishers::schedule::{
    local_endpoint_update_requires_publish, summarize_attempt, AttemptResult,
    EndpointPublicationLoop, InterfaceEndpointUpdate, LogLevel, LoopEvent,
    DEFAULT_PUBLISH_TIMEOUT,
};
use ddns::report::ErrorReport;

/// A certificate of the primary chain with the sequence seven.
const ALICE_CERT: &str = "308201353081e8a003020102020101300506032b6570300c310a300806035504030c0174301e170d3234\
    303130313030303030305a170d3434303130313030303030305a300c310a300806035504030c0174302a\
    300506032b6570032100ea4a6c63e29c520abef5507b132ec5f9954776aebebe7b92421eea691446d22c\
    a36f306d301c0603551d11041530138211616c6963652e67656e6d6574612e6e6574304d0603551d0e04\
    460444373a303a3031323334353637383961626364656630313233343536373839616263646566303132\
    3334353637383961626364656630313233343536373839616263646566300506032b65700341004a62c1\
    12ee06b0c53c40940d87a52f07f484862a3de0393e20be5db89910428245fd718977b2de91fc45a2aa05\
    788721c58e8440b16cf88834afed4417c11307";

fn bytes(hex: &str) -> Vec<u8> {
    (0..hex.len() / 2)
        .map(|i| u8::from_str_radix(&hex[2 * i..2 * i + 2], 16).unwrap())
        .collect()
}

fn socket(addr: &str) -> SocketAddress {
    let (ip, port) = addr.split_once(':').expect("socket addr");
    let ip = ip.split('.').fold(0, |ip, part| ip << 8 | part.parse::<u32>().unwrap());
    SocketAddress::V4 { ip, port: port.parse().unwrap() }
}

fn direct(addr: &str) -> EndpointAddr {
    EndpointAddr::direct(socket(addr))
}

fn failed(publisher: &str, reason: &str) -> (String, Result<(), ErrorReport>) {
    let error = PublishOnceError::Publish {
        publisher: publisher.to_string(),
        source: ErrorReport::plain(reason),
    };
    (publisher.to_string(), Err(error.report()))
}

fn succeeded(publisher: &str) -> (String, Result<(), ErrorReport>) {
    (publisher.to_string(), Ok(()))
}

#[test]
fn publish_scope_wide_area_converts_to_wide_area_selector() {
    let scope = PublishScope::WideArea;

    assert_eq!(scope.selector(), AddressSelector::WideArea);
}

#[test]
fn publish_scope_local_link_converts_to_borrowed_selector() {
    let scope = PublishScope::LocalLink { device: "en0".to_string(), family: Family::V4 };

    assert_eq!(
        scope.selector(),
        AddressSelector::LocalLink { device: "en0", family: Family::V4 }
    );
}

#[test]
fn publish_addresses_select_wide_area_only_for_wide_area_selector() {
    let wide = direct("203.0.113.10:443");
    let local = direct("192.168.1.20:443");
    let addresses =
        PublishAddresses::new().wide_area(vec![wide]).local_link("en0", Family::V4, vec![local]);

    let selected = addresses.endpoints(AddressSelector::WideArea);

    assert_eq!(selected, vec![wide]);
}

#[test]
fn publish_addresses_select_matching_local_link_group() {
    let en0 = direct("192.168.1.20:443");
    let en1 = direct("192.168.2.20:443");
    let addresses = PublishAddresses::new()
        .local_link("en0", Family::V4, vec![en0])
        .local_link("en1", Family::V4, vec![en1]);

    let selected =
        addresses.endpoints(AddressSelector::LocalLink { device: "en1", family: Family::V4 });

    assert_eq!(selected, vec![en1]);
}

#[test]
fn publish_addresses_reject_local_link_family_mismatch() {
    let endpoint = direct("192.168.1.20:443");
    let addresses = PublishAddresses::new().local_link("en0", Family::V4, vec![endpoint]);

    let selected =
        addresses.endpoints(AddressSelector::LocalLink { device: "en0", family: Family::V6 });

    assert!(selected.is_empty());
}

#[test]
fn full_cone_nat_endpoint_preserves_agent_when_outer_differs_from_bound_addr() {
    let bound = socket("10.110.0.10:45635");
    let agent = socket("10.10.0.2:20004");
    let outer = socket("10.10.0.10:45635");

    let endpoint = publish_endpoint_from_stun(bound, agent, outer, NatState::FullCone);

    assert_eq!(endpoint, EndpointAddr::with_agent(agent, outer));
}

#[test]
fn full_cone_endpoint_is_direct_without_address_translation() {
    let bound = socket("10.10.0.100:45635");
    let agent = socket("10.10.0.2:20004");

    let endpoint = publish_endpoint_from_stun(bound, agent, bound, NatState::FullCone);

    assert_eq!(endpoint, EndpointAddr::direct(bound));
}

fn binding(clients: Vec<StunClient>) -> BindingAddress {
    BindingAddress {
        interface_pattern: false,
        pattern_family: None,
        pattern_matches: false,
        interface: None,
        bound: Some(socket("127.0.0.1:4433")),
        on_default_route: false,
        clients,
    }
}

#[test]
fn binding_address_view_does_not_expose_loopback_as_wide_area_without_stun() {
    let view = EndpointBindingAddressView { bindings: vec![binding(Vec::new())] };

    assert!(view.endpoints(AddressSelector::WideArea).is_empty());
}

#[test]
fn stun_clients_make_addresses_known_once() {
    let client = StunClient {
        agent: socket("10.10.0.2:20004"),
        outer: Some(socket("203.0.113.1:4433")),
        nat_type: NatState::Restricted,
    };
    let pending = StunClient { outer: None, ..client };
    let view = EndpointBindingAddressView {
        bindings: vec![binding(vec![client, pending]), binding(vec![client])],
    };

    assert_eq!(
        view.endpoints(AddressSelector::WideArea),
        vec![EndpointAddr::with_agent(client.agent, socket("203.0.113.1:4433"))]
    );
}

#[test]
fn views_can_be_functions() {
    let wide = direct("203.0.113.10:443");
    let view = FnAddressView::new(|selector: AddressSelector<'_>| match selector {
        AddressSelector::WideArea => vec![direct("203.0.113.10:443")],
        AddressSelector::LocalLink { .. } => Vec::new(),
    });
    assert_eq!(selected_addresses(&PublishScope::WideArea, &view), vec![wide]);
}

#[test]
fn empty_publishers_report_no_publishers_available() {
    let error = merge_publications(Vec::new()).expect_err("empty aggregate should fail");

    assert_eq!(error.message(), "no DNS publishers available");
}

#[test]
fn publishers_succeed_when_any_publisher_succeeds() {
    let report = merge_publications(vec![
        failed("first publisher", "offline"),
        succeeded("second publisher"),
    ])
    .expect("one success is enough");

    assert!(!report.is_complete());
    assert_eq!(report.succeeded, vec!["second publisher".to_string()]);
}

#[test]
fn publishers_report_all_failures_when_every_publisher_fails() {
    let error = merge_publications(vec![
        failed("first publisher", "offline"),
        failed("second publisher", "permission denied"),
    ])
    .expect_err("all publishers fail");

    assert_eq!(
        error.message(),
        "all DNS publishers failed\n\
         \x20 - first publisher: failed to publish dns packet with first publisher\n\
         \x20   1. offline\n\
         \x20 - second publisher: failed to publish dns packet with second publisher\n\
         \x20   1. permission denied"
    );
}

#[test]
fn endpoint_packet_encodes_unsigned_e_records() {
    let endpoint = Endpoint::from_addr(direct("203.0.113.10:4433"));

    let answers =
        endpoint_packet("alice.dhttp.net", &vec![Some(endpoint)]).expect("endpoint packet");
    assert_eq!(answers.len(), 1);
    assert_eq!(answers[0].name, "alice.dhttp.net");

    let Some(encoded) = answers[0].endpoint else {
        panic!("answer must be an E record");
    };
    assert!(!encoded.signed);
}

#[test]
fn endpoint_packet_allows_empty_endpoint_set() {
    let answers = endpoint_packet("alice.dhttp.net", &Vec::new()).expect("endpoint packet");
    assert!(answers.is_empty());
}

#[test]
fn endpoint_packet_uses_publisher_chain_key() {
    let endpoint = Endpoint::from_addr(direct("203.0.113.10:4433"));
    let chain_key = CertificateChainKey::new(
        CertificateSequence::new(0).expect("sequence"),
        CertificateChainKind::Primary,
    );

    let answers = endpoint_packet_with_chain_key(
        "alice.dhttp.net",
        &vec![Some(endpoint)],
        Some(&chain_key),
    )
    .expect("endpoint packet");

    let Some(encoded) = answers[0].endpoint else {
        panic!("answer must be an E record");
    };
    assert!(encoded.main);
    assert_eq!(encoded.certificate_chain_key(), chain_key);
}

#[test]
fn endpoint_packet_needs_every_record() {
    let error = endpoint_packet("alice.dhttp.net", &vec![None]).unwrap_err();
    assert_eq!(error, EncodeEndpointPacketError::EncodeEndpoint);
    assert_eq!(error.message(), "failed to encode endpoint address");
}

#[test]
fn custom_publisher_selects_wide_area_addresses() {
    let wide = direct("203.0.113.10:4433");
    let local = direct("192.168.1.20:4433");
    let view =
        PublishAddresses::new().wide_area(vec![wide]).local_link("en0", Family::V4, vec![local]);

    assert_eq!(selected_addresses(&PublishScope::WideArea, &view), vec![wide]);
}

#[test]
fn custom_publisher_selects_matching_local_link_addresses() {
    let en0 = direct("192.168.1.20:4433");
    let en1 = direct("192.168.2.20:4433");
    let scope = PublishScope::LocalLink { device: "en1".to_string(), family: Family::V4 };
    let view = PublishAddresses::new()
        .local_link("en0", Family::V4, vec![en0])
        .local_link("en1", Family::V4, vec![en1]);

    assert_eq!(selected_addresses(&scope, &view), vec![en1]);
}

#[test]
fn custom_publisher_error_preserves_publish_source() {
    let error = publish_selected_outcome(
        "failing publisher",
        Err(ErrorReport::plain("publish rejected")),
    )
    .expect_err("publish should fail");

    assert_eq!(error.message(), "failed to publish dns records with failing publisher");
    let PublisherError::Publish { source, .. } = error else {
        panic!("the publisher failed");
    };
    assert_eq!(source.message, "publish rejected");
}

#[test]
fn mdns_publish_uses_publisher_owned_authority() {
    let chain = vec![bytes(ALICE_CERT)];
    let view = PublishAddresses::new().local_link(
        "lo",
        Family::V4,
        vec![direct("127.0.0.1:4433")],
    );
    let selected = selected_addresses(&binding_scope("lo", Family::V4), &view);
    let encoded = selected.into_iter().map(|addr| Some(Endpoint::from_addr(addr))).collect();
    let mut table = HostTable::new("_test._udp.local");

    publish_on_binding(&mut table, "alice.dhttp.net", &chain, &encoded)
        .expect("mdns publication succeeds");

    let records = table.published_endpoints("alice.dhttp.net").expect("published host exists");
    assert_eq!(records.len(), 1);
    assert!(!records[0].signed);
    assert!(records[0].main);
    assert_eq!(records[0].certificate_chain_key().sequence.get(), 7);
}

#[test]
fn mdns_publication_needs_a_chain_and_every_record() {
    let mut table = HostTable::new("_test._udp.local");
    let error = publish_on_binding(&mut table, "alice.dhttp.net", &Vec::new(), &Vec::new());
    assert_eq!(error.unwrap_err().message(), "failed to encode mdns dns records");
    let error = dns_endpoints_for_authority(&vec![bytes(ALICE_CERT)], &vec![None]).unwrap_err();
    assert_eq!(
        error,
        PublisherError::MdnsEncode {
            source: ErrorReport::plain("failed to encode endpoint address"),
        }
    );
    assert_eq!(table.published_endpoints("alice.dhttp.net"), None);
}

#[test]
fn mdns_publishers_need_an_authority() {
    assert_eq!(mdns_authority(Ok(Some(7))), Ok(7));
    assert_eq!(
        mdns_authority::<u8>(Ok(None)).unwrap_err().message(),
        "anonymous endpoint cannot publish mdns records"
    );
    assert_eq!(
        mdns_authority::<u8>(Err(ErrorReport::plain("gone"))).unwrap_err().message(),
        "failed to get mdns publisher local authority"
    );
    let error = MdnsPublishersError {
        errors: vec![("lo".to_string(), ErrorReport::plain("offline"))],
    };
    assert_eq!(error.message(), "all mdns publishers failed\n  - lo: offline");
}

#[test]
fn publication_loop_logs_complete_success_at_debug() {
    let report = merge_publications(vec![succeeded("working publisher")]);

    let summary = summarize_attempt(&AttemptResult::Finished(report));

    assert_eq!(summary.message, "published resolver endpoints");
    assert_eq!(summary.level, LogLevel::Debug);
}

#[test]
fn publication_loop_logs_partial_success_at_warn() {
    let report = merge_publications(vec![
        succeeded("working publisher"),
        failed("failing publisher", "publish rejected"),
    ]);

    let summary = summarize_attempt(&AttemptResult::Finished(report));

    assert_eq!(summary.message, "dns publish partially failed");
    assert_eq!(summary.level, LogLevel::Warn);
}

#[test]
fn publication_loop_logs_all_failures_at_error() {
    let report = merge_publications(vec![failed("failing publisher", "publish rejected")]);

    let summary = summarize_attempt(&AttemptResult::Finished(report));

    assert_eq!(summary.message, "dns publish failed");
    assert_eq!(summary.level, LogLevel::Error);
}

#[test]
fn typed_local_endpoint_updates_require_publication_refresh() {
    assert!(local_endpoint_update_requires_publish(InterfaceEndpointUpdate::Upsert));
    assert!(local_endpoint_update_requires_publish(InterfaceEndpointUpdate::Remove));
    assert!(local_endpoint_update_requires_publish(InterfaceEndpointUpdate::Close));
}

fn change(observed: bool) -> LoopEvent {
    LoopEvent::EndpointChanged { observed, update: InterfaceEndpointUpdate::Upsert }
}

#[test]
fn publication_loop_replaces_inflight_publish_when_location_changes() {
    let mut publication = EndpointPublicationLoop::new("alice.dhttp.net".to_string())
        .with_interval(60_000_000_000)
        .with_publish_timeout(60_000_000_000);
    publication.on_event(LoopEvent::AttemptStarted);

    assert!(publication.on_event(change(true)).start_publish);
    assert!(!publication.on_event(change(false)).start_publish);
}

#[test]
fn publication_loop_interval_does_not_cancel_active_publish_attempt() {
    let mut publication = EndpointPublicationLoop::new("alice.dhttp.net".to_string())
        .with_interval(120_000_000)
        .with_publish_timeout(1_000_000_000);
    publication.on_event(LoopEvent::AttemptStarted);

    let action = publication.on_event(LoopEvent::IntervalElapsed);
    assert!(!action.start_publish);
    assert!(action.reset_interval);

    publication.on_event(LoopEvent::PublishFinished);
    assert!(publication.on_event(LoopEvent::IntervalElapsed).start_publish);
}

#[test]
fn default_publish_timeout_allows_slow_publish_attempts_to_finish() {
    let publication = EndpointPublicationLoop::new("alice.dhttp.net".to_string());

    assert_eq!(publication.publish_timeout(), DEFAULT_PUBLISH_TIMEOUT);
    assert!(publication.publish_timeout() > 11_000_000_000);
    let done = PublishReport { succeeded: vec!["slow".to_string()], errors: Vec::new() };
    assert!(summarize_attempt(&AttemptResult::Finished(Ok(done))).published);
    assert!(!summarize_attempt(&AttemptResult::TimedOut).published);
}

#[test]
fn publish_once_reports_no_publisher_resolver() {
    let scopes = publish_single_resolver("display only resolver", &ResolverKind::Other).unwrap();
    assert!(scopes.is_empty());

    let error = publish_once(vec![Ok(!scopes.is_empty())]).unwrap_err();

    assert!(matches!(error, PublishOnceError::NoPublisherResolver));
    assert_eq!(error.message(), "no publisher resolver available");
}

#[test]
fn publish_once_ends_with_the_first_error() {
    let error = || PublishOnceError::Publish {
        publisher: "h3".to_string(),
        source: ErrorReport::plain("offline"),
    };
    assert_eq!(publish_once(vec![Ok(true), Err(error()), Ok(false)]), Err(error()));
    assert_eq!(publish_once(vec![Ok(false), Ok(true)]), Ok(()));
    assert_eq!(error().message(), "failed to publish dns packet with h3");
}

#[test]
fn publisher_timeout_is_configurable() {
    let publication = EndpointPublicationLoop::new("authority.example".to_string());
    assert_eq!(publication.publish_timeout(), DEFAULT_PUBLISH_TIMEOUT);

    let timeout = 3_000_000_000;
    let publication = publication.with_publish_timeout(timeout);
    assert_eq!(publication.publish_timeout(), timeout);
}

#[test]
fn resolvers_publish_in_their_scopes() {
    let wide = vec![PublishScope::WideArea];
    assert_eq!(publish_single_resolver("x", &ResolverKind::Http), Ok(wide));
    let link = |device: &str| PublishScope::LocalLink {
        device: device.to_string(),
        family: Family::V4,
    };
    let bound = vec![("en0".to_string(), Family::V4), ("en1".to_string(), Family::V4)];
    assert_eq!(
        publish_single_resolver("x", &ResolverKind::Mdns { bound }),
        Ok(vec![link("en0"), link("en1")])
    );
    let error = publish_single_resolver("x", &ResolverKind::DeferredH3 { initialized: false })
        .unwrap_err();
    assert_eq!(
        error,
        PublishOnceError::Publish {
            publisher: "x".to_string(),
            source: ErrorReport::plain("deferred h3 resolver has not been initialized"),
        }
    );
    assert!(clears_publish_state(&ResolverKind::H3));
    assert!(!clears_publish_state(&ResolverKind::Http));
}

#[test]
fn unsigned_answers_are_of_the_name_and_the_chain() {
    let signer = EndpointRecordSigner::new(Arc::new("authority"))
        .with_options(PublishOptions { server_id: Some(9) });
    assert_eq!(signer.options().server_id, Some(9));
    assert_eq!(**signer.authority(), "authority");

    let chain = CertificateChainKey::new(
        CertificateSequence::from_small(0),
        CertificateChainKind::Primary,
    );
    let record = Endpoint::from_addr(direct("127.0.0.1:443"));
    let answers =
        signer.unsigned_answers("nat.genmeta.net", &vec![Some(record)], &chain).unwrap();

    assert_eq!(answers[0].name, "nat.genmeta.net");
    let endpoint = answers[0].endpoint.unwrap();
    assert!(endpoint.main);
    assert_eq!(endpoint.certificate_chain_key().sequence.get(), 0);
    assert!(signer.unsigned_answers("nat.genmeta.net", &vec![None], &chain).is_err());
    assert_eq!(
        CreatePublisherError::AnonymousEndpoint.message(),
        "anonymous endpoint cannot publish dns records"
    );
}

fn location(kind: LocationKind, known: bool) -> ddns::publisher::LoopEvent {
    ddns::publisher::LoopEvent::LocationChanged {
        observed: true,
        event: LocationEvent::Upsert { kind, known },
    }
}

/// What came of the attempts of a publication that met some events.
#[derive(Debug, PartialEq, Eq)]
struct Attempts {
    started: usize,
    replaced: usize,
    in_flight: bool,
}

fn run(events: &[ddns::publisher::LoopEvent]) -> Attempts {
    let mut attempts = Attempts { started: 1, replaced: 0, in_flight: true };
    for event in events {
        if matches!(
            event,
            ddns::publisher::LoopEvent::PublishFinished
                | ddns::publisher::LoopEvent::PublishTimedOut
        ) {
            attempts.in_flight = false;
        }
        let action = on_loop_event(*event);
        assert!(action.clear_state || !action.start_publish);
        if action.start_publish {
            attempts.replaced += attempts.in_flight as usize;
            attempts.started += 1;
            attempts.in_flight = true;
        }
    }
    attempts
}

#[test]
fn run_restarts_when_publish_attempt_observes_location_change() {
    let change = location(LocationKind::BoundAddress, true);
    let finished = ddns::publisher::LoopEvent::PublishFinished;

    // One change comes between two attempts, the other one during the attempt that it
    // brought about.
    assert_eq!(
        run(&[finished, change]),
        Attempts { started: 2, replaced: 0, in_flight: true }
    );
    assert_eq!(
        run(&[finished, change, change]),
        Attempts { started: 3, replaced: 1, in_flight: true }
    );
}

#[test]
fn run_ignores_transient_location_failures_generated_during_publish_attempt() {
    let finished = ddns::publisher::LoopEvent::PublishFinished;
    assert_eq!(
        run(&[
            finished,
            location(LocationKind::BoundAddress, true),
            location(LocationKind::StunClient, false),
            finished,
        ]),
        Attempts { started: 2, replaced: 0, in_flight: false }
    );
    assert!(!on_loop_event(location(LocationKind::StunClient, false)).start_publish);
    assert!(!on_loop_event(location(LocationKind::Other, true)).start_publish);
    assert!(location_event_requires_publish(LocationEvent::Closed));
    assert!(!location_event_requires_publish(LocationEvent::Remove {
        kind: LocationKind::Other,
    }));
}

#[test]
fn run_does_not_retry_location_publish_after_timeout() {
    assert_eq!(
        on_loop_event(ddns::publisher::LoopEvent::PublishTimedOut),
        LoopAction { reset_interval: false, clear_state: true, start_publish: false }
    );
    assert_eq!(
        run(&[
            ddns::publisher::LoopEvent::PublishFinished,
            location(LocationKind::BoundAddress, true),
            ddns::publisher::LoopEvent::PublishTimedOut,
        ]),
        Attempts { started: 2, replaced: 0, in_flight: false }
    );
}

#[test]
fn run_replaces_in_flight_publish_on_publishable_location_change() {
    // The first attempt never answers.
    assert_eq!(run(&[]), Attempts { started: 1, replaced: 0, in_flight: true });
    assert_eq!(
        run(&[location(LocationKind::BoundAddress, true)]),
        Attempts { started: 2, replaced: 1, in_flight: true }
    );
}

#[test]
fn reports_keep_the_causes_of_an_error() {
    let source = ErrorReport {
        message: "publish rejected".to_string(),
        sources: vec!["connection lost".to_string()],
    };
    let error = publish_selected_outcome("failing publisher", Err(source)).unwrap_err();
    let report = error.report();
    assert_eq!(report.message, "failed to publish dns records with failing publisher");
    assert_eq!(report.sources, vec!["publish rejected", "connection lost"]);

    let error = PublishOnceError::SignEndpointRecords {
        source: SignEndpointRecordsError::SignEndpoint { source: ErrorReport::plain("no key") },
    };
    let report = error.report();
    assert_eq!(report.message, "failed to sign endpoint records");
    assert_eq!(report.sources, vec!["failed to sign endpoint address", "no key"]);

    let error = PublisherError::Mdns { source: MdnsPublishersError { errors: Vec::new() } };
    assert_eq!(error.report().sources, vec!["no mdns publishers available"]);
    assert!(PublisherError::MdnsAnonymousEndpoint.report().sources.is_empty());
}
