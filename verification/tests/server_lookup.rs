//! Lookups on the server.
use std::cmp::Ordering;

use ddns::foreign::UriParts;
use ddns::measure::{compare_optional_partial, Measure};
use ddns::net::{IpAddress, SocketAddress};
use ddns::protocol::packet::{Answer, Endpoint};
use ddns::protocol::signature::SignatureFields;
use ddns::protocol::wire::{be_multi_response, MultiResponse, ResponseRecord};
use ddns::server::error::AppError;
use ddns::server::geo::{GeoEntry, GeoPoint, GeoResolver, GeoTraits};
use ddns::server::query::{
    all_candidate_cap, answer_lookup, candidate_total_cap, finish_lookup, perform_lookup,
    push_unique_candidates, LookupResult, SeedRecords,
};
use ddns::server::ranking::{
    build_geo_sort_key, compare_geo_sort_keys, lookup_endpoint, normalize_lookup_records,
    sort_lookup_records, sort_lookup_records_with_geo, GeoSortKey, LookupRecord,
};
use ddns::server::service::{
    done_response, lookup_request, lookup_response, publish_host, route, unrouted_response,
    write_error, Route,
};
use ddns::server::storage::MemoryStorage;

fn v4(a: u8, b: u8, c: u8, d: u8) -> u32 {
    u32::from_be_bytes([a, b, c, d])
}

fn addr(ip: u32, port: u16) -> SocketAddress {
    SocketAddress::V4 { ip, port }
}

fn load(value: f32) -> Option<Measure> {
    Some(Measure::from_single_bits(value.to_bits()))
}

fn distance(value: f64) -> Option<Measure> {
    Some(Measure::from_double_bits(value.to_bits()))
}

fn endpoint(ip: u32, load: Option<f32>) -> Endpoint {
    let mut endpoint = Endpoint::direct(addr(ip, 3478));
    endpoint.load = load.map(f32::to_bits);
    endpoint
}

fn lookup_record(host: &str, ip: u32, load: Option<f32>) -> LookupRecord {
    LookupRecord::new(
        ResponseRecord::unsigned(ip.to_be_bytes().to_vec(), Vec::new()),
        Some(vec![Answer { name: host.to_string(), endpoint: Some(endpoint(ip, load)) }]),
    )
}

fn entry(ip: u32, country: &str, asn: u32) -> GeoEntry {
    GeoEntry {
        ip: IpAddress::V4(ip),
        traits: GeoTraits {
            country: Some(country.to_string()),
            city: None,
            asn: Some(asn),
            point: None,
        },
        distance_km: None,
    }
}

fn geo() -> GeoResolver {
    GeoResolver {
        entries: vec![
            entry(v4(8, 8, 8, 8), "US", 15169),
            entry(v4(1, 1, 1, 1), "AU", 13335),
            entry(v4(223, 5, 5, 5), "CN", 45102),
            entry(v4(114, 114, 114, 114), "CN", 21859),
            entry(v4(80, 80, 80, 80), "NL", 60679),
        ],
        city_distance_routing: true,
        max_accuracy_radius_km: 100,
    }
}

fn first_ip(records: &[LookupRecord]) -> IpAddress {
    lookup_endpoint(&records[0]).expect("sorted record has an endpoint").addr.ip()
}

fn blacklist_comes_before_seed_records() {
    let host = "blocked.example.genmeta.net";
    let seeds = SeedRecords {
        entries: vec![(host.to_string(), lookup_record(host, v4(8, 8, 8, 8), None))],
    };
    let mut storage = MemoryStorage::with_blacklist(vec![host.to_string()]);

    let found = perform_lookup(
        &mut storage,
        &vec!["genmeta.net".to_string()],
        host,
        None,
        None,
        None,
        0,
    )
    .unwrap();

    let found = found.map(|(_, records)| {
        records.into_iter().map(|record| LookupRecord::new(record, None)).collect()
    });
    assert!(seeds.get(host).is_some());
    assert_eq!(
        finish_lookup(found, seeds.get(host), None, None, None),
        LookupResult::NotFound
    );
}

#[test]
fn lookup_memory_blacklist_returns_not_found_before_seed_records() {
    blacklist_comes_before_seed_records();
}

#[test]
fn tests_memory_blacklist_returns_not_found_before_seed_records() {
    blacklist_comes_before_seed_records();
}

fn signed_packets_stay_whole() {
    let mut record = lookup_record("stun.example.com", v4(8, 8, 8, 8), None);
    record.signature_fields = SignatureFields {
        content_digest: b"sha-256=:abc:".to_vec(),
        signature_input: b"dns=(\"content-digest\");created=1;keyid=\"sha256:abc\";alg=\"ed25519\""
            .to_vec(),
        signature: b"dns=:sig:".to_vec(),
    };

    let normalized = normalize_lookup_records(vec![record.clone()]);

    assert_eq!(normalized.len(), 1);
    assert_eq!(normalized[0], record);
}

#[test]
fn lookup_normalize_lookup_records_keeps_signed_packets_whole() {
    signed_packets_stay_whole();
}

#[test]
fn tests_normalize_lookup_records_keeps_signed_packets_whole() {
    signed_packets_stay_whole();
}

#[test]
fn unsigned_packets_are_split_by_endpoint() {
    let host = "stun.example.com";
    let mut record = lookup_record(host, v4(8, 8, 8, 8), None);
    record.answers.as_mut().unwrap().push(Answer {
        name: host.to_string(),
        endpoint: Some(endpoint(v4(1, 1, 1, 1), None)),
    });

    let normalized = normalize_lookup_records(vec![record.clone(), record]);

    assert_eq!(normalized.len(), 2);
    assert!(normalized.iter().all(|record| record.dns.is_none()));
    let again = normalize_lookup_records(normalized.clone());
    assert_eq!(again, normalized);
}

fn geo_keys_follow_the_documented_priority() {
    let best = GeoSortKey {
        same_country: true,
        same_asn: true,
        family_match: true,
        same_city: true,
        load: load(0.2),
        geo_distance: distance(20.0),
    };
    let worse_load = GeoSortKey { load: load(0.8), ..best };
    let worse_family = GeoSortKey {
        same_asn: true,
        family_match: false,
        same_city: true,
        load: load(0.1),
        geo_distance: distance(1.0),
        ..best
    };
    let worse_city =
        GeoSortKey { same_city: false, load: load(0.1), geo_distance: distance(1.0), ..best };
    let worse_asn = GeoSortKey {
        same_asn: false,
        family_match: true,
        same_city: true,
        load: load(0.1),
        geo_distance: distance(1.0),
        ..best
    };
    let worse_country = GeoSortKey {
        same_country: false,
        same_asn: true,
        family_match: true,
        same_city: false,
        load: load(0.1),
        geo_distance: distance(1.0),
    };

    assert_eq!(compare_geo_sort_keys(best, worse_load), Ordering::Less);
    assert_eq!(compare_geo_sort_keys(best, worse_family), Ordering::Less);
    assert_eq!(compare_geo_sort_keys(best, worse_city), Ordering::Less);
    assert_eq!(compare_geo_sort_keys(best, worse_asn), Ordering::Less);
    assert_eq!(compare_geo_sort_keys(best, worse_country), Ordering::Less);
    assert_eq!(compare_geo_sort_keys(worse_country, best), Ordering::Greater);
}

#[test]
fn lookup_compare_geo_sort_keys_follows_documented_priority() {
    geo_keys_follow_the_documented_priority();
}

#[test]
fn tests_compare_geo_sort_keys_follows_documented_priority() {
    geo_keys_follow_the_documented_priority();
}

fn unknown_dimensions_are_skipped() {
    let known_distance = GeoSortKey {
        same_country: true,
        same_asn: true,
        family_match: true,
        same_city: true,
        load: load(0.2),
        geo_distance: distance(10.0),
    };
    let missing_distance = GeoSortKey { geo_distance: None, ..known_distance };
    let missing_load = GeoSortKey { load: None, ..known_distance };

    assert_eq!(compare_geo_sort_keys(known_distance, missing_distance), Ordering::Equal);
    assert_eq!(compare_geo_sort_keys(known_distance, missing_load), Ordering::Equal);
}

#[test]
fn lookup_compare_geo_sort_keys_skips_unknown_dimensions() {
    unknown_dimensions_are_skipped();
}

#[test]
fn tests_compare_geo_sort_keys_skips_unknown_dimensions() {
    unknown_dimensions_are_skipped();
}

#[test]
fn measures_order_like_the_numbers_they_stand_for() {
    let numbers = [f64::NEG_INFINITY, -2.5, -0.0, 0.0, 1.0e-300, 3.5, f64::INFINITY];
    for a in numbers {
        for b in numbers {
            assert_eq!(
                Some(compare_optional_partial(distance(a), distance(b))),
                a.partial_cmp(&b)
            );
        }
    }
    assert_eq!(compare_optional_partial(distance(f64::NAN), distance(1.0)), Ordering::Equal);
    assert_eq!(compare_optional_partial(None, distance(1.0)), Ordering::Equal);
    assert_eq!(compare_optional_partial(load(0.1), load(0.2)), Ordering::Less);
}

fn same_source_wins_over_load() {
    let source = Some(IpAddress::V4(v4(8, 8, 8, 8)));
    let matching = lookup_record("stun.example.com", v4(8, 8, 8, 8), Some(0.9));
    let non_matching = lookup_record("stun.example.com", v4(1, 1, 1, 1), Some(0.1));

    let sorted = sort_lookup_records_with_geo(vec![non_matching, matching], source, &geo());

    assert_eq!(first_ip(&sorted), IpAddress::V4(v4(8, 8, 8, 8)));
}

#[test]
fn lookup_sort_lookup_records_with_geo_prefers_same_source_endpoint_even_with_higher_load() {
    same_source_wins_over_load();
}

#[test]
fn tests_sort_lookup_records_with_geo_prefers_same_source_endpoint_even_with_higher_load() {
    same_source_wins_over_load();
}

fn load_counts_without_places() {
    let source = Some(IpAddress::V4(v4(10, 0, 0, 1)));
    let closer_prefix_higher_load =
        lookup_record("stun.example.com", v4(10, 0, 0, 2), Some(0.9));
    let farther_prefix_lower_load = lookup_record("stun.example.com", v4(8, 8, 8, 8), Some(0.1));

    let sorted =
        sort_lookup_records(vec![closer_prefix_higher_load, farther_prefix_lower_load], source);

    assert_eq!(first_ip(&sorted), IpAddress::V4(v4(8, 8, 8, 8)));
}

#[test]
fn lookup_sort_lookup_records_without_geo_ignores_ip_prefix_and_prefers_lower_load() {
    load_counts_without_places();
}

#[test]
fn tests_sort_lookup_records_without_geo_ignores_ip_prefix_and_prefers_lower_load() {
    load_counts_without_places();
}

fn asn_then_country() {
    let source = Some(IpAddress::V4(v4(223, 5, 5, 5)));
    let host = "stun.example.com";
    let sorted = sort_lookup_records_with_geo(
        vec![
            lookup_record(host, v4(8, 8, 8, 8), Some(0.01)),
            lookup_record(host, v4(114, 114, 114, 114), Some(0.02)),
            lookup_record(host, v4(223, 5, 5, 5), Some(0.9)),
        ],
        source,
        &geo(),
    );

    let ordered: Vec<_> =
        sorted.iter().map(|record| lookup_endpoint(record).unwrap().addr.ip()).collect();
    assert_eq!(
        ordered,
        vec![
            IpAddress::V4(v4(223, 5, 5, 5)),
            IpAddress::V4(v4(114, 114, 114, 114)),
            IpAddress::V4(v4(8, 8, 8, 8)),
        ]
    );
}

#[test]
fn lookup_sort_lookup_records_with_geo_prefers_same_asn_then_same_country_on_real_ips() {
    asn_then_country();
}

#[test]
fn tests_sort_lookup_records_with_geo_prefers_same_asn_then_same_country_on_real_ips() {
    asn_then_country();
}

fn country_over_load() {
    let source = Some(IpAddress::V4(v4(114, 114, 114, 114)));
    let host = "stun.example.com";
    let sorted = sort_lookup_records_with_geo(
        vec![
            lookup_record(host, v4(80, 80, 80, 80), Some(0.01)),
            lookup_record(host, v4(223, 5, 5, 5), Some(0.9)),
        ],
        source,
        &geo(),
    );

    assert_eq!(first_ip(&sorted), IpAddress::V4(v4(223, 5, 5, 5)));
}

#[test]
fn lookup_sort_lookup_records_with_geo_prefers_same_country_over_lower_load_on_real_ips() {
    country_over_load();
}

#[test]
fn tests_sort_lookup_records_with_geo_prefers_same_country_over_lower_load_on_real_ips() {
    country_over_load();
}

fn traits(city: &str, asn: u32, accuracy_radius_km: Option<u16>) -> GeoTraits {
    GeoTraits {
        country: Some("CN".to_string()),
        city: Some(city.to_string()),
        asn: Some(asn),
        point: accuracy_radius_km.map(|accuracy_radius_km| GeoPoint {
            latitude: 39.9_f64.to_bits(),
            longitude: 116.4_f64.to_bits(),
            accuracy_radius_km,
        }),
    }
}

fn vague_places_have_no_distance() {
    let key = build_geo_sort_key(
        Some(IpAddress::V4(v4(8, 8, 8, 8))),
        Some(&traits("Beijing", 64512, Some(500))),
        addr(v4(8, 8, 4, 4), 3478),
        load(0.2),
        &traits("Shanghai", 64512, Some(10)),
        &geo(),
        Some(1067.0_f64.to_bits()),
    );

    assert!(key.same_country);
    assert!(key.same_asn);
    assert!(!key.same_city);
    assert_eq!(key.geo_distance, None);

    let known = build_geo_sort_key(
        Some(IpAddress::V4(v4(8, 8, 8, 8))),
        Some(&traits("Beijing", 64512, Some(50))),
        addr(v4(8, 8, 4, 4), 3478),
        load(0.2),
        &traits("Shanghai", 64512, Some(10)),
        &geo(),
        Some(1067.0_f64.to_bits()),
    );
    assert_eq!(known.geo_distance, distance(1067.0));
}

#[test]
fn lookup_build_geo_sort_key_ignores_city_distance_when_accuracy_is_too_large() {
    vague_places_have_no_distance();
}

#[test]
fn tests_build_geo_sort_key_ignores_city_distance_when_accuracy_is_too_large() {
    vague_places_have_no_distance();
}

fn same_city_is_preferred() {
    let source = traits("Hangzhou", 64512, None);
    let same_city_key = build_geo_sort_key(
        Some(IpAddress::V4(v4(223, 5, 5, 5))),
        Some(&source),
        addr(v4(223, 6, 6, 6), 3478),
        load(0.9),
        &traits("Hangzhou", 64513, None),
        &geo(),
        None,
    );
    let different_city_key = build_geo_sort_key(
        Some(IpAddress::V4(v4(223, 5, 5, 5))),
        Some(&source),
        addr(v4(114, 114, 114, 114), 3478),
        load(0.1),
        &traits("Shanghai", 64513, None),
        &geo(),
        None,
    );

    assert!(same_city_key.same_city);
    assert!(!different_city_key.same_city);
    assert_eq!(compare_geo_sort_keys(same_city_key, different_city_key), Ordering::Less);
}

#[test]
fn lookup_build_geo_sort_key_prefers_same_city_when_available() {
    same_city_is_preferred();
}

#[test]
fn tests_build_geo_sort_key_prefers_same_city_when_available() {
    same_city_is_preferred();
}

#[test]
fn places_are_read_from_the_table() {
    let geo = geo();
    let ip = IpAddress::V4(v4(223, 5, 5, 5));
    assert_eq!(geo.lookup_country(ip).as_deref(), Some("CN"));
    assert_eq!(geo.lookup_asn(ip), Some(45102));
    assert_eq!(geo.lookup_city(ip), None);
    assert_eq!(geo.lookup_point(ip), None);
    assert_eq!(geo.lookup_traits(IpAddress::V6(1)), GeoTraits::default());
}

#[test]
fn loads_that_are_partly_missing_are_placed_one_by_one() {
    let host = "stun.example.com";
    let sorted = sort_lookup_records(
        vec![
            lookup_record(host, v4(1, 0, 0, 1), Some(0.5)),
            lookup_record(host, v4(1, 0, 0, 2), None),
            lookup_record(host, v4(1, 0, 0, 3), Some(0.1)),
        ],
        None,
    );
    let ordered: Vec<_> =
        sorted.iter().map(|record| lookup_endpoint(record).unwrap().addr.ip()).collect();
    assert_eq!(
        ordered,
        vec![
            IpAddress::V4(v4(1, 0, 0, 3)),
            IpAddress::V4(v4(1, 0, 0, 1)),
            IpAddress::V4(v4(1, 0, 0, 2)),
        ]
    );
}

#[test]
fn seeds_fill_an_answer_up_to_the_limit() {
    let host = "stun.example.com";
    let dynamic = vec![lookup_record(host, v4(1, 0, 0, 1), None)];
    let seeds = vec![
        lookup_record(host, v4(1, 0, 0, 2), None),
        lookup_record(host, v4(1, 0, 0, 3), None),
    ];

    let count = |result: LookupResult| match result {
        LookupResult::Multi(records) => records.len(),
        LookupResult::NotFound => 0,
    };
    assert_eq!(count(answer_lookup(dynamic.clone(), Some(seeds.clone()), Some(1), None, None)), 1);
    assert_eq!(count(answer_lookup(dynamic.clone(), Some(seeds.clone()), None, None, None)), 3);
    assert_eq!(count(answer_lookup(dynamic.clone(), Some(seeds.clone()), Some(2), None, None)), 2);
    assert_eq!(count(answer_lookup(dynamic, Some(seeds.clone()), Some(9), None, None)), 3);
    assert_eq!(count(answer_lookup(Vec::new(), Some(seeds), None, None, None)), 2);
    assert_eq!(answer_lookup(Vec::new(), None, None, None, None), LookupResult::NotFound);
}

fn ips_of(result: LookupResult) -> Vec<IpAddress> {
    match result {
        LookupResult::Multi(records) => {
            records.iter().map(|record| lookup_endpoint(record).unwrap().addr.ip()).collect()
        }
        LookupResult::NotFound => Vec::new(),
    }
}

#[test]
fn seeds_follow_the_published_records_without_repeating_endpoints() {
    let host = "stun.example.com";
    let dynamic = vec![lookup_record(host, v4(1, 0, 0, 2), None)];
    let seeds = vec![
        lookup_record(host, v4(1, 0, 0, 1), None),
        lookup_record(host, v4(1, 0, 0, 2), None),
    ];
    let published = IpAddress::V4(v4(1, 0, 0, 2));
    let configured = IpAddress::V4(v4(1, 0, 0, 1));

    let answer = |limit: Option<usize>| {
        ips_of(finish_lookup(Some(dynamic.clone()), Some(seeds.clone()), limit, None, None))
    };
    assert_eq!(answer(None), vec![published, configured]);
    assert_eq!(answer(Some(2)), vec![published, configured]);
    assert_eq!(answer(Some(1)), vec![published]);
    assert_eq!(finish_lookup(None, Some(seeds), None, None, None), LookupResult::NotFound);
}

#[test]
fn published_and_configured_records_are_answered_together() {
    let host = "stun.genmeta.net";
    let seeds = SeedRecords {
        entries: vec![(host.to_string(), lookup_record(host, v4(1, 0, 0, 1), None))],
    };
    let published = lookup_record(host, v4(1, 0, 0, 2), None);

    let result = finish_lookup(Some(vec![published]), seeds.get(host), None, None, None);
    let LookupResult::Multi(records) = result else {
        panic!("the host has records");
    };
    let records = records
        .into_iter()
        .map(|record| {
            let IpAddress::V4(ip) = lookup_endpoint(&record).unwrap().addr.ip() else {
                panic!("the endpoints have short addresses");
            };
            ResponseRecord::new(record.signature_fields, ip.to_be_bytes().to_vec(), record.cert)
        })
        .collect();
    let response = lookup_response(Some(MultiResponse::new(records)));

    assert_eq!(response.status, 200);
    assert!(response.multi);
    let (rest, decoded) = be_multi_response(&response.body).unwrap();
    assert!(rest.is_empty());
    let packets: Vec<_> = decoded.records.into_iter().map(|record| record.dns).collect();
    assert_eq!(packets, vec![vec![1, 0, 0, 2], vec![1, 0, 0, 1]]);
}

#[test]
fn seeds_are_found_by_host() {
    let record = |ip: u32| lookup_record("a.genmeta.net", ip, None);
    let seeds = SeedRecords {
        entries: vec![
            ("a.genmeta.net".to_string(), record(1)),
            ("b.genmeta.net".to_string(), record(2)),
            ("a.genmeta.net".to_string(), record(3)),
        ],
    };
    assert_eq!(seeds.get("a.genmeta.net"), Some(vec![record(1), record(3)]));
    assert_eq!(seeds.get("c.genmeta.net"), None);
}

#[test]
fn candidates_are_capped_and_unique() {
    assert_eq!(candidate_total_cap(Some(1)), candidate_total_cap(Some(1)));
    assert!(candidate_total_cap(Some(1)) <= candidate_total_cap(None));
    assert!(all_candidate_cap(10, None) >= all_candidate_cap(10, Some(&GeoTraits::default())));
    let mut candidates = vec!["a".to_string()];
    push_unique_candidates(
        &mut candidates,
        vec!["a".to_string(), "b".to_string(), "c".to_string()],
        2,
    );
    assert_eq!(candidates, vec!["a".to_string(), "b".to_string()]);
}

#[test]
fn hosts_outside_the_allowed_domains_are_refused() {
    let mut storage = MemoryStorage::new();
    let error = perform_lookup(
        &mut storage,
        &vec!["genmeta.net".to_string()],
        "example.com",
        None,
        None,
        None,
        0,
    )
    .unwrap_err();
    assert_eq!(error, AppError::DomainNotAllowed);
}

#[test]
fn requests_are_routed_by_path_and_method() {
    assert_eq!(route("POST", "/publish"), Route::Publish);
    assert_eq!(route("GET", "/lookup"), Route::Lookup);
    assert_eq!(route("GET", "/publish"), Route::MethodNotAllowed);
    assert_eq!(route("POST", "/"), Route::NotFound);

    let refused = unrouted_response(Route::MethodNotAllowed).unwrap();
    assert_eq!((refused.status, refused.body.as_slice()), (405, b"Method Not Allowed".as_slice()));
    let missing = unrouted_response(Route::NotFound).unwrap();
    assert_eq!((missing.status, missing.body.as_slice()), (404, b"Not Found".as_slice()));
    assert!(unrouted_response(Route::Lookup).is_none());
    let done = done_response();
    assert_eq!((done.status, done.body.as_slice()), (200, b"OK".as_slice()));
    assert!(!done.multi);
}

#[test]
fn lookup_requests_name_a_host_and_a_limit() {
    let uri = UriParts::parse("https://s/lookup?host=a.genmeta.net&limit=3").unwrap();
    let request = lookup_request(&uri).unwrap();
    assert_eq!(request.host, "a.genmeta.net");
    assert_eq!(request.limit, Some(3));
    assert_eq!(publish_host(&uri).as_deref(), Some("a.genmeta.net"));

    let uri = UriParts::parse("/lookup?host=a%2Eb&limit=0").unwrap();
    let request = lookup_request(&uri).unwrap();
    assert_eq!(request.host, "a.b");
    assert_eq!(request.limit, None);

    let uri = UriParts::parse("/lookup").unwrap();
    assert_eq!(lookup_request(&uri), Err(AppError::MissingHostParam));
    assert_eq!(publish_host(&uri), None);
}

#[test]
fn responses_carry_records_or_the_reason() {
    let records = MultiResponse::new(vec![ResponseRecord::unsigned(vec![1], Vec::new())]);
    let encoded = records.encode();
    let response = lookup_response(Some(records));
    assert_eq!((response.status, response.multi), (200, true));
    assert_eq!(response.body, encoded);

    let response = lookup_response(None);
    assert_eq!((response.status, response.multi), (404, false));

    let response = write_error(&AppError::DomainNotAllowed);
    assert_eq!(response.status, 403);
    assert_eq!(response.body, b"domain not allowed".to_vec());
}
