//! The clients of the servers.
use ddns::foreign::{UriParts, UrlParts};
use ddns::h3::cache::{LookupCache, NEGATIVE_TTL, POSITIVE_TTL};
use ddns::h3::lookup::{
    api_url, check_status, finish_lookup, lookup_url, resolver_label, response_packets,
    server_source, server_url, start_lookup, AttemptOutcome, BaseUrlError, H3LookupError, LookupAttempts,
    LookupDecodeError, LookupRecords, LookupStart, NextStep, LOOKUP_REQUEST_ATTEMPTS,
    LOOKUP_REQUEST_TIMEOUT_SECS,
};
use ddns::h3::publish::{
    publish_endpoints_answers, publish_outcome, publish_url, signature_headers, H3PublishError,
};
use ddns::h3::request::request_authority;
use ddns::http::{bounded_status_body, HttpError, RecordCache, RECORD_TTL};
use ddns::net::{EndpointAddr, Family, SocketAddress, Source};
use ddns::protocol::certificate::CertificateSequence;
use ddns::protocol::packet::{Answer, Endpoint};
use ddns::protocol::signature::SignatureFields;
use ddns::protocol::wire::{MultiResponse, ResponseRecord};
use ddns::report::ErrorReport;

fn socket(addr: &str) -> SocketAddress {
    let (ip, port) = addr.split_once(':').expect("socket addr");
    let ip = ip.split('.').fold(0, |ip, part| ip << 8 | part.parse::<u32>().unwrap());
    SocketAddress::V4 { ip, port: port.parse().unwrap() }
}

fn endpoint(addr: &str) -> EndpointAddr {
    EndpointAddr::direct(socket(addr))
}

fn direct(addr: &str, main: bool, sequence: u32) -> Endpoint {
    let mut endpoint = Endpoint::direct(socket(addr));
    endpoint.main = main;
    endpoint.sequence = CertificateSequence::new(sequence as u64);
    endpoint
}

/// A response with one record, and its packet as it is decoded.
fn response_for(name: &str, endpoints: Vec<Endpoint>) -> (Vec<u8>, Vec<Option<Vec<Answer>>>) {
    let answers = endpoints
        .into_iter()
        .map(|endpoint| Answer { name: name.to_string(), endpoint: Some(endpoint) })
        .collect();
    let record = ResponseRecord::unsigned(b"packet".to_vec(), Vec::new());
    (MultiResponse::new(vec![record]).encode(), vec![Some(answers)])
}

#[test]
fn lookup_retry_budget_leaves_external_timeout_margin() {
    let total_budget = LOOKUP_REQUEST_TIMEOUT_SECS * LOOKUP_REQUEST_ATTEMPTS;

    assert!(total_budget <= 10);
}

#[test]
fn positive_cache_hit_returns_endpoints() {
    let mut cache = LookupCache::new();
    cache.insert_positive("demo.dhttp.net", None, vec![endpoint("192.0.2.10:4433")], 0);

    assert_eq!(
        cache.positive_hit("demo.dhttp.net", None).unwrap(),
        vec![endpoint("192.0.2.10:4433")]
    );
}

#[test]
fn negative_cache_hit_blocks_lookup() {
    let mut cache = LookupCache::new();
    cache.insert_negative("missing.dhttp.net", None, 0);

    assert!(cache.negative_hit("missing.dhttp.net", None));
}

#[test]
fn positive_cache_hit_keeps_selector_entries_separate() {
    let mut cache = LookupCache::new();
    cache.insert_positive("demo.dhttp.net", None, vec![endpoint("192.0.2.10:4433")], 0);
    cache.insert_positive("demo.dhttp.net:1", None, vec![endpoint("192.0.2.11:4433")], 0);

    assert_eq!(
        cache.positive_hit("demo.dhttp.net", None).unwrap(),
        vec![endpoint("192.0.2.10:4433")]
    );
    assert_eq!(
        cache.positive_hit("demo.dhttp.net:1", None).unwrap(),
        vec![endpoint("192.0.2.11:4433")]
    );
}

#[test]
fn cache_keeps_address_families_separate() {
    let mut cache = LookupCache::new();
    cache.insert_positive(
        "demo.dhttp.net",
        Some(Family::V4),
        vec![endpoint("192.0.2.10:4433")],
        0,
    );

    assert!(cache.positive_hit("demo.dhttp.net", Some(Family::V6)).is_none());
}

#[test]
fn cache_entries_end() {
    let mut cache = LookupCache::new();
    cache.insert_positive("a.dhttp.net", None, vec![endpoint("192.0.2.10:4433")], 5);
    cache.insert_negative("b.dhttp.net", None, 5);
    cache.prune_expired(4 + NEGATIVE_TTL);
    assert!(cache.negative_hit("b.dhttp.net", None));
    cache.prune_expired(5 + NEGATIVE_TTL);
    assert!(!cache.negative_hit("b.dhttp.net", None));
    assert!(cache.positive_hit("a.dhttp.net", None).is_some());
    cache.prune_expired(5 + POSITIVE_TTL);
    assert!(cache.positive_hit("a.dhttp.net", None).is_none());
}

#[test]
fn cached_lookup_reports_h3_dns_source() {
    let mut cache = LookupCache::new();
    let found = endpoint("192.168.5.78:41748");
    cache.insert_positive("car.lab.dhttp.net", None, vec![found], 0);

    assert_eq!(
        start_lookup(&mut cache, "car.lab.dhttp.net", None, 1),
        LookupStart::Cached(vec![found])
    );
    assert_eq!(
        server_source(ddns::resolvers::DHTTP_H3_DNS_SERVER),
        Ok(Source::H3 { server: "https://dns.genmeta.net:4433".to_string() })
    );
}

#[test]
fn cached_dns_genmeta_net_record_is_returned() {
    let mut cache = LookupCache::new();
    cache.insert_positive("dns.genmeta.net", None, vec![endpoint("192.0.2.53:4433")], 0);

    assert_eq!(
        start_lookup(&mut cache, "dns.genmeta.net", None, 1),
        LookupStart::Cached(vec![endpoint("192.0.2.53:4433")])
    );
}

#[test]
fn lookup_records_decode_candidate_groups_returns_all_primary_sequences() {
    let (response, packets) = response_for(
        "demo.dhttp.net",
        vec![
            direct("192.0.2.10:4433", true, 0),
            direct("192.0.2.20:4433", true, 1),
            direct("192.0.2.21:4433", true, 1),
        ],
    );

    let groups =
        LookupRecords::decode_candidate_groups("demo.dhttp.net", response.as_ref(), &packets)
            .expect("candidate groups decode");

    assert_eq!(groups.len(), 2);
    assert_eq!(groups[0].0.label(), "primary:0");
    assert_eq!(groups[0].1.len(), 1);
    assert_eq!(groups[1].0.label(), "primary:1");
    assert_eq!(groups[1].1.len(), 2);
}

#[test]
fn h3_lookup_url_targets_v2_api_from_origin_base() {
    let url = lookup_url("https://dns.example.test:4433", "demo.dhttp.net", None).expect("url");

    assert_eq!(url, "https://dns.example.test:4433/api/v2/lookup?host=demo.dhttp.net");
}

#[test]
fn h3_lookup_url_does_not_duplicate_v2_base_path() {
    let url =
        lookup_url("https://dns.example.test:4433/api/v2/", "demo.dhttp.net", None).expect("url");

    assert_eq!(url, "https://dns.example.test:4433/api/v2/lookup?host=demo.dhttp.net");
}

#[test]
fn h3_lookup_url_appends_sequence_query() {
    let url = lookup_url(
        "https://dns.example.test:4433",
        "demo.dhttp.net",
        Some(CertificateSequence::from_small(3)),
    )
    .expect("url");

    assert_eq!(
        url,
        "https://dns.example.test:4433/api/v2/lookup?host=demo.dhttp.net&sequence=3"
    );
}

#[test]
fn lookup_records_selects_first_server_ordered_group() {
    let (response, packets) = response_for(
        "demo.dhttp.net",
        vec![
            direct("192.0.2.10:4433", true, 2),
            direct("192.0.2.11:4433", true, 2),
            direct("192.0.2.30:4433", true, 3),
            direct("192.0.2.20:4433", false, 1),
        ],
    );

    let records =
        LookupRecords::decode("demo.dhttp.net", None, &response, &packets).expect("records");

    assert_eq!(records.endpoints.len(), 2);
    assert_eq!(records.endpoints[0], endpoint("192.0.2.10:4433"));
    assert_eq!(records.endpoints[1], endpoint("192.0.2.11:4433"));
}

#[test]
fn lookup_records_ignore_answer_name_mismatch() {
    let (response, packets) =
        response_for("other.dhttp.net", vec![direct("192.0.2.50:4433", true, 1)]);

    let records =
        LookupRecords::decode("demo.dhttp.net", None, &response, &packets).expect("records");

    assert!(records.endpoints.is_empty());
}

#[test]
fn lookup_records_filter_requested_primary_sequence() {
    let (response, packets) = response_for(
        "demo.dhttp.net",
        vec![
            direct("192.0.2.10:4433", true, 0),
            direct("192.0.2.11:4433", true, 0),
            direct("192.0.2.20:4433", true, 1),
        ],
    );

    let records = LookupRecords::decode(
        "demo.dhttp.net",
        Some(CertificateSequence::from_small(1)),
        &response,
        &packets,
    )
    .expect("records");

    assert_eq!(records.endpoints, vec![endpoint("192.0.2.20:4433")]);
}

#[test]
fn responses_have_to_be_readable() {
    let (response, packets) =
        response_for("demo.dhttp.net", vec![direct("192.0.2.10:4433", true, 0)]);
    assert_eq!(response_packets(&response), Ok(vec![b"packet".to_vec()]));

    let cut = &response[..response.len() - 1];
    assert_eq!(response_packets(cut), Err(LookupDecodeError::MultiResponse));
    assert_eq!(
        LookupRecords::decode("demo.dhttp.net", None, cut, &packets),
        Err(LookupDecodeError::MultiResponse)
    );
    assert_eq!(
        LookupRecords::decode("demo.dhttp.net", None, &response, &vec![None]),
        Err(LookupDecodeError::ParseRecords)
    );
}

#[test]
fn records_with_a_bad_signature_are_skipped() {
    let fields = SignatureFields {
        content_digest: b"sha-256=:AAAA:".to_vec(),
        signature_input: b"dns=()".to_vec(),
        signature: b"dns=:AAAA:".to_vec(),
    };
    let record = ResponseRecord::new(fields, b"packet".to_vec(), b"certificate".to_vec());
    let response = MultiResponse::new(vec![record]).encode();
    let records = LookupRecords::decode("demo.dhttp.net", None, &response, &vec![None]).unwrap();
    assert!(records.endpoints.is_empty());
}

#[test]
fn request_authority_applies_http_and_https_default_ports() {
    let http = UriParts::parse("http://dns.example.test/api").unwrap();
    let https = UriParts::parse("https://dns.example.test/api").unwrap();

    assert_eq!(request_authority(&http), "dns.example.test:80");
    assert_eq!(request_authority(&https), "dns.example.test:443");
}

#[test]
fn request_authority_preserves_explicit_port() {
    let uri = UriParts::parse("https://dns.example.test:8443/api").unwrap();

    assert_eq!(request_authority(&uri), "dns.example.test:8443");
}

#[test]
fn request_authority_formats_ipv6_with_default_port() {
    let uri = UriParts::parse("https://[2001:db8::1]/api").unwrap();

    assert_eq!(request_authority(&uri), "[2001:db8::1]:443");
}

#[test]
fn servers_are_named_by_a_url_with_a_host() {
    let url = server_url("https://dns.genmeta.net:4433").unwrap();
    assert_eq!(
        server_source("https://DNS.genmeta.net:4433/api/?x=1"),
        Ok(Source::H3 { server: "https://dns.genmeta.net:4433".to_string() })
    );
    assert_eq!(server_source("dns"), Err(BaseUrlError::Invalid));
    assert_eq!(server_source("blob:https://dns.genmeta.net"), Err(BaseUrlError::MissingHost));
    assert_eq!(
        ddns::http::server_source(&url),
        Source::Http { server: "dns.genmeta.net".to_string() }
    );
    assert_eq!(resolver_label(&url), "H3 DNS Resolver(https://dns.genmeta.net:4433/)");
    assert!(matches!(server_url("dns"), Err(BaseUrlError::Invalid)));
    assert!(matches!(server_url("mailto:dns"), Err(BaseUrlError::MissingHost)));
    assert_eq!(api_url("dns", "/api", "a"), None);
    assert_eq!(
        api_url("https://dns.genmeta.net/x?y=1", "/api", "a b").as_deref(),
        Some("https://dns.genmeta.net/api?host=a+b")
    );
}

#[test]
fn long_names_are_put_into_a_url() {
    let name = "a".repeat(0x120_0000);
    let url = api_url("https://dns.genmeta.net", "/api", &name).unwrap();
    assert_eq!(url.len(), "https://dns.genmeta.net/api?host=".len() + name.len());
    let url = publish_url("https://dns.genmeta.net", &name).unwrap();
    assert_eq!(url.len(), "https://dns.genmeta.net/publish?host=".len() + name.len());
}

#[test]
fn fragments_stay_behind_the_parameters() {
    assert_eq!(
        api_url("https://dns.genmeta.net", "/api#top", "a").as_deref(),
        Some("https://dns.genmeta.net/api?host=a#top")
    );
}

#[test]
fn responses_with_a_tail_are_refused() {
    let (mut response, packets) =
        response_for("demo.dhttp.net", vec![direct("192.0.2.10:4433", true, 0)]);
    assert!(response_packets(&response).is_ok());
    response.push(0);
    assert!(response_packets(&response).is_err());
    assert!(LookupRecords::decode_candidate_groups("demo.dhttp.net", &response, &packets).is_err());
}

#[test]
fn lookups_remember_what_they_found() {
    let mut cache = LookupCache::new();
    let name = "demo.dhttp.net:1";
    let start = start_lookup(&mut cache, name, None, 0);
    let LookupStart::Ask { domain, sequence } = start else {
        panic!("nothing is remembered yet");
    };
    assert_eq!(domain, "demo.dhttp.net");
    assert_eq!(sequence, Some(CertificateSequence::from_small(1)));

    let (response, packets) =
        response_for("demo.dhttp.net", vec![direct("192.0.2.20:4433", true, 1)]);
    let found =
        finish_lookup(&mut cache, name, None, &domain, sequence, Ok(response), &packets, 0);
    assert_eq!(found, Ok(vec![endpoint("192.0.2.20:4433")]));

    assert_eq!(
        start_lookup(&mut cache, name, None, POSITIVE_TTL - 1),
        LookupStart::Cached(vec![endpoint("192.0.2.20:4433")])
    );
    assert!(matches!(
        start_lookup(&mut cache, name, None, POSITIVE_TTL),
        LookupStart::Ask { .. }
    ));
}

#[test]
fn lookups_remember_that_there_was_nothing() {
    let mut cache = LookupCache::new();
    let name = "demo.dhttp.net";
    let (response, packets) =
        response_for("other.dhttp.net", vec![direct("192.0.2.20:4433", true, 1)]);
    let found = finish_lookup(&mut cache, name, None, name, None, Ok(response), &packets, 0);
    assert_eq!(found, Err(H3LookupError::NoRecordFound));
    assert_eq!(
        start_lookup(&mut cache, name, None, NEGATIVE_TTL - 1),
        LookupStart::NoRecordFound
    );
    assert!(matches!(
        start_lookup(&mut cache, name, None, NEGATIVE_TTL),
        LookupStart::Ask { .. }
    ));
    assert_eq!(start_lookup(&mut cache, "127.0.0.1:443", None, 0), LookupStart::NoRecordFound);
}

#[test]
fn statuses_decide_whether_records_exist() {
    assert_eq!(check_status(200, "200 OK"), Ok(()));
    assert_eq!(check_status(404, "404 Not Found"), Err(H3LookupError::NoRecordFound));
    let error = check_status(500, "500 Internal Server Error").unwrap_err();
    assert_eq!(error.message(), "500 Internal Server Error");
    assert!(!error.retryable_lookup_error());
}

#[test]
fn failed_requests_are_repeated_in_the_budget() {
    let failure =
        || AttemptOutcome::Failed(H3LookupError::Request { source: ErrorReport::plain("reset") });
    let mut attempts = LookupAttempts::new();
    assert_eq!(attempts.on_outcome(failure()), NextStep::Retry { clear_pool: true });
    assert_eq!(
        attempts.on_outcome(AttemptOutcome::TimedOut),
        NextStep::Retry { clear_pool: false }
    );
    assert!(matches!(attempts.on_outcome(failure()), NextStep::Done(Err(_))));

    let mut attempts = LookupAttempts::new();
    assert_eq!(
        attempts.on_outcome(AttemptOutcome::Failed(H3LookupError::NoRecordFound)),
        NextStep::Done(Err(H3LookupError::NoRecordFound))
    );
    assert_eq!(
        attempts.on_outcome(AttemptOutcome::Response(vec![1])),
        NextStep::Done(Ok(vec![1]))
    );
}

#[test]
fn h3_publications_go_below_the_base() {
    assert_eq!(
        publish_url("https://dns.example.test:4433/", "demo.dhttp.net").as_deref(),
        Some("https://dns.example.test:4433/publish?host=demo.dhttp.net")
    );
    assert_eq!(publish_outcome(200, "200 OK"), Ok(()));
    assert_eq!(
        publish_outcome(403, "403 Forbidden"),
        Err(H3PublishError::Status { status: "403 Forbidden".to_string() })
    );
    let answers = publish_endpoints_answers(
        "demo.dhttp.net",
        &vec![Some(direct("192.0.2.1:1", true, 1)), None],
    );
    assert_eq!(answers.len(), 1);
    assert_eq!(answers[0].endpoint, Some(direct("192.0.2.1:1", true, 1)));
}

#[test]
fn signatures_travel_in_headers() {
    let fields = SignatureFields {
        content_digest: vec![1],
        signature_input: vec![2],
        signature: vec![3],
    };
    let headers = signature_headers(&fields);
    let shown: Vec<_> =
        headers.iter().map(|header| (header.name, header.value.clone())).collect();
    assert_eq!(
        shown,
        vec![
            ("content-digest", vec![1]),
            ("signature-input", vec![2]),
            ("signature", vec![3]),
        ]
    );
    assert!(signature_headers(&SignatureFields::empty()).is_empty());
}

#[test]
fn http_decode_candidate_groups_returns_all_primary_sequences() {
    let (response, packets) = response_for(
        "demo.dhttp.net",
        vec![direct("192.0.2.10:4433", true, 0), direct("192.0.2.20:4433", true, 1)],
    );

    let groups =
        LookupRecords::decode_candidate_groups("demo.dhttp.net", response.as_ref(), &packets)
            .expect("candidate groups decode");

    assert_eq!(groups.len(), 2);
    assert_eq!(groups[0].0.label(), "primary:0");
    assert_eq!(groups[1].0.label(), "primary:1");
}

#[test]
fn http_publish_url_targets_v2_api_from_origin_base() {
    let url =
        ddns::http::publish_url("https://dns.example.test", "demo.dhttp.net").expect("url");

    assert_eq!(url, "https://dns.example.test/api/v2/publish?host=demo.dhttp.net");
}

#[test]
fn http_lookup_url_does_not_duplicate_v2_base_path() {
    let url = lookup_url("https://dns.example.test/api/v2/", "demo.dhttp.net", None).expect("url");

    assert_eq!(url, "https://dns.example.test/api/v2/lookup?host=demo.dhttp.net");
}

#[test]
fn http_lookup_url_appends_sequence_query() {
    let url = lookup_url(
        "https://dns.example.test",
        "demo.dhttp.net",
        Some(CertificateSequence::from_small(7)),
    )
    .expect("url");

    assert_eq!(url, "https://dns.example.test/api/v2/lookup?host=demo.dhttp.net&sequence=7");
}

#[test]
fn http_records_are_remembered() {
    let mut cache = RecordCache::new();
    let name = "demo.dhttp.net";
    let (response, packets) =
        response_for(name, vec![direct("192.0.2.20:4433", true, 1)]);
    assert!(matches!(
        cache.start_lookup(name, 0),
        ddns::http::LookupStart::Ask { sequence: None, .. }
    ));
    assert_eq!(
        cache.finish_lookup(name, name, None, &response, &packets, 0),
        Ok(vec![endpoint("192.0.2.20:4433")])
    );
    assert_eq!(
        cache.start_lookup(name, RECORD_TTL - 1),
        ddns::http::LookupStart::Cached(vec![endpoint("192.0.2.20:4433")])
    );
    assert!(matches!(
        cache.start_lookup(name, RECORD_TTL),
        ddns::http::LookupStart::Ask { .. }
    ));
    assert_eq!(
        cache.finish_lookup(name, "other.dhttp.net", None, &response, &packets, 0),
        Err(HttpError::NoRecordFound)
    );
    assert_eq!(
        cache.finish_lookup(name, name, None, &[], &packets, 0),
        Err(HttpError::ParseMultiResponse)
    );
    assert_eq!(
        cache.finish_lookup(name, name, None, &response, &vec![None], 0),
        Err(HttpError::ParseRecords)
    );
}

#[test]
fn http_answers_are_cut() {
    assert_eq!(bounded_status_body(b"\xffno"), "\u{fffd}no");
    assert_eq!(bounded_status_body(&vec![b'a'; 5000]).len(), 4096);
    assert_eq!(ddns::http::publish_outcome(204, "204 No Content", b""), Ok(()));
    assert_eq!(
        ddns::http::publish_outcome(400, "400 Bad Request", b"host mismatch"),
        Err(HttpError::Status {
            status: "400 Bad Request".to_string(),
            message: "host mismatch".to_string(),
        })
    );
    let url = UrlParts::parse("https://dns.genmeta.net").unwrap();
    assert_eq!(
        ddns::http::resolver_label(&url),
        "HTTP DNS Resolver(dns.genmeta.net)"
    );
}

#[test]
fn http_failures_are_told_by_their_status() {
    let source = || ErrorReport::plain("connection refused");
    assert_eq!(
        HttpError::from_response(Some((404, "404 Not Found".to_string())), source()),
        HttpError::NoRecordFound
    );
    let refused = HttpError::from_response(Some((502, "502 Bad Gateway".to_string())), source());
    assert_eq!(refused.message(), "502 Bad Gateway");
    let unsent = HttpError::from_response(None, source());
    assert_eq!(unsent, HttpError::Reqwest { source: source() });
    assert_eq!(unsent.message(), "http request failed");
    let shown = HttpError::Status {
        status: "400 Bad Request".to_string(),
        message: "host mismatch".to_string(),
    };
    assert_eq!(shown.message(), "400 Bad Request: host mismatch");
    assert_eq!(HttpError::NoRecordFound.message(), "no DNS record found");
    assert_eq!(
        HttpError::ParseRecords.message(),
        "failed to parse DNS records from response"
    );
    assert_eq!(
        HttpError::ParseMultiResponse.message(),
        "failed to decode multi-record response"
    );
}

#[test]
fn http_publications_need_every_record() {
    let record = direct("192.0.2.1:1", false, 2);
    let answers =
        ddns::http::dns_packet_for_http_publish("demo.dhttp.net", &vec![Some(record)]).unwrap();
    assert_eq!(answers[0].name, "demo.dhttp.net");
    assert_eq!(answers[0].endpoint, Some(record));
    assert!(
        ddns::http::dns_packet_for_http_publish("demo.dhttp.net", &vec![Some(record), None])
            .is_err()
    );
}
