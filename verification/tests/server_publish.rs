//! Publication on the server.
use ddns::foreign::UriParts;
use ddns::net::{IpAddress, SocketAddress};
use ddns::protocol::packet::{Answer, Endpoint};
use ddns::protocol::signature::{SignatureFields, SigningRequest};
use ddns::server::error::{
    host_matches_suffix, normalize_host, normalize_host_allowlist, normalize_host_raw,
    parse_query_params, AppError,
};
use ddns::server::geo::{GeoEntry, GeoResolver, GeoTraits};
use ddns::server::policy::{
    client_allowed_host, dns_alt_names, extract_client_dns_sans, sole_allowed_host,
    validate_dns_packet, DomainPolicies, DomainPolicy, PolicyRule, ValidatedDnsPacket,
};
use ddns::server::publish::{
    authorize_publish, clear_in_memory, decide_publish, leaf_certificate, publish_in_memory,
    record_index_tags, signature_fields_from_headers, AppState, PublishAction,
};
use ddns::server::query::perform_lookup;
use ddns::server::storage::MemoryStorage;
use ring::signature::Ed25519KeyPair;

/// A certificate of an Ed25519 key for alice.genmeta.net.
const ALICE_CERT: &str = "308201353081e8a003020102020101300506032b6570300c310a300806035504030c0174301e170d3234\
    303130313030303030305a170d3434303130313030303030305a300c310a300806035504030c0174302a\
    300506032b6570032100ea4a6c63e29c520abef5507b132ec5f9954776aebebe7b92421eea691446d22c\
    a36f306d301c0603551d11041530138211616c6963652e67656e6d6574612e6e6574304d0603551d0e04\
    460444373a303a3031323334353637383961626364656630313233343536373839616263646566303132\
    3334353637383961626364656630313233343536373839616263646566300506032b65700341004a62c1\
    12ee06b0c53c40940d87a52f07f484862a3de0393e20be5db89910428245fd718977b2de91fc45a2aa05\
    788721c58e8440b16cf88834afed4417c11307";

/// A certificate of the same key for two hosts.
const TWO_HOSTS_CERT: &str = "3081f13081a4a003020102020101300506032b6570300c310a300806035504030c0174301e170d323430\
    3130313030303030305a170d3434303130313030303030305a300c310a300806035504030c0174302a30\
    0506032b6570032100ea4a6c63e29c520abef5507b132ec5f9954776aebebe7b92421eea691446d22ca3\
    2b302930270603551d110420301e820d612e67656e6d6574612e6e6574820d622e67656e6d6574612e6e\
    6574300506032b65700341001f28d4926350da2b451a653c38ce0b806929c63c9d0eef16c0a82dd70a58\
    04e7b6e48e499e0b32066303e1f06d4a08bdf3b49e13265c8ebd89438715c942090a";

const ED25519_SPKI: &str = "302a300506032b6570032100ea4a6c63e29c520abef5507b132ec5f9954776aebebe7b92421eea691446\
    d22c";

fn bytes(hex: &str) -> Vec<u8> {
    (0..hex.len() / 2)
        .map(|i| u8::from_str_radix(&hex[2 * i..2 * i + 2], 16).unwrap())
        .collect()
}

fn signed_by_alice(packet: &[u8]) -> SignatureFields {
    let chain = vec![bytes(ALICE_CERT)];
    let request = SigningRequest::new(packet, &chain, &bytes(ED25519_SPKI), 1_700_000_000).unwrap();
    let key = Ed25519KeyPair::from_seed_unchecked(&[7; 32]).unwrap();
    request.complete(key.sign(request.signature_base.as_bytes()).as_ref())
}

fn allowlist() -> Vec<String> {
    vec!["genmeta.net".to_string()]
}

fn state(policies: DomainPolicies) -> AppState {
    AppState { host_allowlist: allowlist(), require_signature: true, ttl_secs: 30, policies }
}

fn answer(name: &str, last_octet: u8) -> Answer {
    Answer {
        name: name.to_string(),
        endpoint: Some(Endpoint::direct(SocketAddress::V4 {
            ip: u32::from_be_bytes([203, 0, 113, last_octet]),
            port: 4433,
        })),
    }
}

fn lookup(storage: &mut MemoryStorage, host: &str, now: u128) -> Vec<Vec<u8>> {
    let allowed = vec!["genmeta.net".to_string(), "dhttp.net".to_string()];
    match perform_lookup(storage, &allowed, host, None, None, None, now).unwrap() {
        Some((_, records)) => records.into_iter().map(|record| record.cert).collect(),
        None => Vec::new(),
    }
}

fn publish(storage: &mut MemoryStorage, host: &str, cert: u8, now: u128) {
    let answers = vec![answer(host, cert)];
    publish_in_memory(
        storage,
        host,
        &[cert],
        &vec![vec![cert]],
        SignatureFields::empty(),
        Some(&answers),
        None,
        30,
        now,
    );
}

#[test]
fn validate_dns_packet_accepts_empty_packet_as_clear_operation() {
    let validated = validate_dns_packet(
        &Ok(Vec::new()),
        b"packet",
        false,
        &Vec::new(),
        &SignatureFields::empty(),
        &allowlist(),
        "reimu.pilot.genmeta.net",
    )
    .unwrap();

    assert!(matches!(validated, ValidatedDnsPacket::Empty));
}

#[test]
fn clear_record_removes_only_current_certificate_fingerprint() {
    let mut storage = MemoryStorage::new();
    let host = "reimu.pilot.dhttp.net";

    publish(&mut storage, host, 1, 0);
    publish(&mut storage, host, 2, 0);
    clear_in_memory(&mut storage, host, &vec![vec![1]]);

    assert_eq!(lookup(&mut storage, host, 0), vec![vec![2]]);
}

#[test]
fn clear_record_is_idempotent_for_missing_fingerprint() {
    let mut storage = MemoryStorage::new();
    let host = "reimu.pilot.dhttp.net";

    clear_in_memory(&mut storage, host, &vec![vec![1]]);

    assert!(lookup(&mut storage, host, 0).is_empty());
}

#[test]
fn published_records_are_found_until_they_go_stale() {
    let mut storage = MemoryStorage::new();
    let host = "reimu.pilot.dhttp.net";

    publish(&mut storage, host, 1, 5);
    publish(&mut storage, host, 1, 6);

    let end = 6 + 30_000_000_000;
    assert_eq!(lookup(&mut storage, host, end - 1), vec![vec![1]]);
    assert!(lookup(&mut storage, host, end).is_empty());
    assert!(lookup(&mut storage, "other.dhttp.net", 6).is_empty());
}

#[test]
fn packets_are_checked_against_host_and_certificate() {
    let host = "alice.genmeta.net";
    let chain = vec![bytes(ALICE_CERT)];
    let signed = signed_by_alice(b"packet");
    let check = |decoded: Result<Vec<Answer>, String>, required: bool, fields: &SignatureFields| {
        validate_dns_packet(&decoded, b"packet", required, &chain, fields, &allowlist(), host)
    };

    assert_eq!(
        check(Ok(vec![answer(host, 1)]), true, &signed),
        Ok(ValidatedDnsPacket::Records { host: host.to_string() })
    );
    assert_eq!(
        check(Ok(vec![answer(host, 1)]), false, &SignatureFields::empty()),
        Ok(ValidatedDnsPacket::Records { host: host.to_string() })
    );
    assert_eq!(
        check(Ok(vec![answer(host, 1)]), true, &SignatureFields::empty()),
        Err(AppError::SignatureRequired)
    );
    assert_eq!(
        check(Ok(vec![answer(host, 1)]), true, &signed_by_alice(b"another packet")),
        Err(AppError::InvalidSignature)
    );
    assert_eq!(
        check(Ok(vec![answer("bob.genmeta.net", 1)]), true, &signed),
        Err(AppError::HostMismatch)
    );
    assert_eq!(
        check(Err("cut off".to_string()), true, &signed),
        Err(AppError::InvalidDnsPacket { message: "cut off".to_string() })
    );
}

#[test]
fn publication_is_authorized_by_policy() {
    let standard = state(DomainPolicies::default());
    let chain = vec![bytes(ALICE_CERT)];

    let ticket = authorize_publish(&standard, Some("Alice.Genmeta.Net."), Some(&chain)).unwrap();
    assert_eq!(ticket.host, "alice.genmeta.net");
    assert_eq!(ticket.policy, DomainPolicy::Standard);
    assert_eq!(authorize_publish(&standard, None, Some(&chain)), Err(AppError::MissingHostParam));
    assert_eq!(
        authorize_publish(&standard, Some("alice.genmeta.net"), None),
        Err(AppError::MissingClientCertificate)
    );
    assert_eq!(
        authorize_publish(&standard, Some("alice.example.com"), Some(&chain)),
        Err(AppError::DomainNotAllowed)
    );

    let signed = signed_by_alice(b"packet");
    let decide = |fields: &SignatureFields, answers: Vec<Answer>| {
        decide_publish(&standard, &ticket, &chain, fields, &Ok(b"packet".to_vec()), &Ok(answers))
    };
    assert_eq!(
        decide(&signed, vec![answer("alice.genmeta.net", 1)]),
        Ok(PublishAction::Store)
    );
    assert_eq!(decide(&signed, Vec::new()), Ok(PublishAction::Clear));
    assert_eq!(
        decide_publish(
            &standard,
            &ticket,
            &chain,
            &signed,
            &Err("reset".to_string()),
            &Ok(Vec::new())
        ),
        Err(AppError::InvalidDnsPacket { message: "reset".to_string() })
    );
}

#[test]
fn policies_match_hosts_and_subdomains() {
    let policies = DomainPolicies(vec![
        (PolicyRule::Exact("a.genmeta.net".to_string()), DomainPolicy::OpenMulti),
        (PolicyRule::Suffix("open.genmeta.net".to_string()), DomainPolicy::OpenMulti),
    ]);
    assert_eq!(policies.policy_for("a.genmeta.net"), DomainPolicy::OpenMulti);
    assert_eq!(policies.policy_for("b.a.genmeta.net"), DomainPolicy::Standard);
    assert_eq!(policies.policy_for("b.open.genmeta.net"), DomainPolicy::OpenMulti);
    assert_eq!(DomainPolicies::default().policy_for("a.genmeta.net"), DomainPolicy::Standard);
}

#[test]
fn names_of_other_kinds_are_passed_over() {
    let name = |text: &str| Some(text.to_string());
    assert_eq!(
        dns_alt_names(vec![None, name("b.genmeta.net"), None, name("a.genmeta.net")]),
        vec!["b.genmeta.net".to_string(), "a.genmeta.net".to_string()]
    );
    assert!(dns_alt_names(vec![None]).is_empty());
}

#[test]
fn certificates_name_their_hosts() {
    let alice = vec![bytes(ALICE_CERT)];
    assert_eq!(extract_client_dns_sans(&alice), vec!["alice.genmeta.net".to_string()]);
    assert_eq!(client_allowed_host(&alice, &allowlist()), Ok("alice.genmeta.net".to_string()));
    assert_eq!(
        client_allowed_host(&vec![bytes(TWO_HOSTS_CERT)], &allowlist()),
        Err(AppError::ClientCertDomainNotAllowed)
    );
    assert!(extract_client_dns_sans(&vec![b"no certificate".to_vec()]).is_empty());
    assert_eq!(
        sole_allowed_host(&Vec::new(), &allowlist()),
        Err(AppError::ClientCertDomainNotAllowed)
    );
    assert_eq!(leaf_certificate(&alice), bytes(ALICE_CERT));
    assert!(leaf_certificate(&Vec::new()).is_empty());
}

#[test]
fn signature_fields_come_from_headers() {
    let fields = signature_fields_from_headers(Some(vec![1]), None, Some(vec![2]));
    assert_eq!(fields.content_digest, vec![1]);
    assert!(fields.signature_input.is_empty());
    assert_eq!(fields.signature, vec![2]);
    assert!(signature_fields_from_headers(None, None, None).is_empty());
}

#[test]
fn index_tags_are_the_places_of_the_endpoints() {
    let place = |last: u8, country: &str, asn: u32| GeoEntry {
        ip: IpAddress::V4(u32::from_be_bytes([203, 0, 113, last])),
        traits: GeoTraits {
            country: Some(country.to_string()),
            city: None,
            asn: Some(asn),
            point: None,
        },
        distance_km: None,
    };
    let geo = GeoResolver {
        entries: vec![place(1, "US", 9), place(2, "CN", 5), place(3, "US", 5)],
        city_distance_routing: true,
        max_accuracy_radius_km: 100,
    };
    let host = "a.genmeta.net";
    let answers = vec![answer(host, 1), answer(host, 2), answer(host, 3), answer(host, 4)];

    let tags = record_index_tags(Some(&answers), Some(&geo));
    assert_eq!(tags.countries, vec!["CN".to_string(), "US".to_string()]);
    assert_eq!(tags.asns, vec![5, 9]);
    assert!(record_index_tags(Some(&answers), None).countries.is_empty());
    assert!(record_index_tags(None, Some(&geo)).asns.is_empty());
}

#[test]
fn hosts_have_a_normal_form() {
    let allowed = allowlist();
    let normal = |host: &str| normalize_host(host, &allowed);
    assert_eq!(normal("DNS.Genmeta.Net."), Ok("dns.genmeta.net".to_string()));
    assert_eq!(normal("dns.genmeta.net:4433"), Ok("dns.genmeta.net".to_string()));
    assert_eq!(
        normal("blocked.example.genmeta.net"),
        Ok("blocked.example.genmeta.net".to_string())
    );
    assert_eq!(normal("  "), Err(AppError::InvalidHost));
    assert_eq!(normal("*.genmeta.net"), Err(AppError::ForbiddenHost));
    assert_eq!(normal("notgenmeta.net"), Err(AppError::DomainNotAllowed));
    assert_eq!(normalize_host_raw("B\u{fc}cher.example"), Ok("xn--bcher-kva.example".to_string()));
}

#[test]
fn allowlists_are_sorted_without_repetition() {
    let entries = vec!["Z.net".to_string(), "a.net".to_string(), "z.net.".to_string()];
    assert_eq!(
        normalize_host_allowlist(&entries),
        Ok(vec!["a.net".to_string(), "z.net".to_string()])
    );
    assert!(normalize_host_allowlist(&vec!["*".to_string()]).is_err());
    assert!(host_matches_suffix("a.z.net", "z.net"));
    assert!(host_matches_suffix("z.net", "z.net"));
    assert!(!host_matches_suffix("az.net", "z.net"));
}

#[test]
fn parameters_are_decoded() {
    let uri = UriParts::parse("/publish?host=a%2Eb+c&x=1&x=2").unwrap();
    let params = parse_query_params(&uri);
    assert_eq!(params.get("host").map(String::as_str), Some("a.b c"));
    assert_eq!(params.get("x").map(String::as_str), Some("2"));
    assert_eq!(params.get("y"), None);
}

#[test]
fn refusals_have_a_status_and_a_text() {
    let cases = [
        (AppError::MissingHostParam, 400, "missing host parameter"),
        (AppError::InvalidHost, 400, "invalid host"),
        (AppError::ForbiddenHost, 400, "forbidden host"),
        (AppError::DomainNotAllowed, 403, "domain not allowed"),
        (AppError::HostMismatch, 400, "host mismatch"),
        (AppError::MissingClientCertificate, 401, "missing client certificate"),
        (AppError::ClientCertDomainNotAllowed, 403, "client certificate domain not allowed"),
        (AppError::NoAnswersInPacket, 422, "no answers in packet"),
        (AppError::SignatureRequired, 400, "signature required"),
        (AppError::InvalidSignature, 400, "invalid signature"),
        (AppError::Redis { message: "down".to_string() }, 503, "redis error: down"),
    ];
    for (error, status, text) in cases {
        assert_eq!(error.status(), status);
        assert_eq!(error.message(), text);
    }
}
