//! The configuration of the server.
use ddns::net::SocketAddress;
use ddns::protocol::packet::Endpoint;
use ddns::server::config::{
    build_policies, build_seed_records, expand_home_dir, geo_databases, outdated_geo_db, Config,
    GeoConfigError, Options, PolicyConfig, PolicyKind, SeedRecordConfig,
};
use ddns::server::error::AppError;
use ddns::server::ocsp::{
    build_ocsp_request_context, load_pem_certificates, normalize_base_url, ocsp_body, ocsp_certificates, refresh_decision, refresh_success_delay,
    OcspCertificatesError, OcspConfigError, RefreshOutcome, DEFAULT_OCSP_RESPONDER_BASE_URL,
};
use ddns::server::policy::{DomainPolicy, PolicyRule};

fn test_config() -> Config {
    Config {
        redis: None,
        redis_write_url: None,
        redis_read_url: None,
        binds: Config::default_binds(),
        server_name: Config::default_server_name(),
        cert: Config::default_cert(),
        key: Config::default_key(),
        root_cert: Config::default_root_cert(),
        ocsp_issuer_cert: None,
        ocsp_responder_base_url: None,
        require_signature: Config::default_require_signature(),
        ttl_secs: Config::default_ttl_secs(),
        host_allowlist: Config::default_host_allowlist(),
        domain_policies: Vec::new(),
        seed_records: Vec::new(),
        geoip_city_db: None,
        geoip_asn_db: None,
    }
}

#[test]
fn default_binds_are_explicit_dual_stack() {
    let binds = Config::default_binds();

    assert_eq!(binds.len(), 2);
    assert_eq!(binds[0], "inet://0.0.0.0:4433");
    assert_eq!(binds[1], "inet://[::]:4433");
}

#[test]
fn defaults_are_those_of_the_examples() {
    let config = test_config();
    assert_eq!(config.server_name, "localhost");
    assert_eq!(config.cert, "examples/keychain/localhost/localhost-ECC.crt");
    assert_eq!(config.key, "examples/keychain/localhost/localhost-ECC.key");
    assert_eq!(config.root_cert, "examples/keychain/root/rootCA-ECC.crt");
    assert!(config.require_signature);
    assert_eq!(config.ttl_secs, 30);
    assert_eq!(Config::default_host_allowlist(), vec!["genmeta.net".to_string()]);
    assert_eq!(Options { config: "server.toml".to_string() }.config, "server.toml");
}

#[test]
fn geo_routing_requires_city_db_path() {
    let mut config = test_config();
    config.geoip_asn_db = Some("/tmp/asn.mmdb".to_string());

    let err = geo_databases(&config).expect_err("missing city db should fail");

    assert_eq!(err, GeoConfigError::Incomplete);
    assert_eq!(err.message(), "geoip_city_db and geoip_asn_db must be configured together");
}

#[test]
fn geo_routing_requires_asn_db_path() {
    let mut config = test_config();
    config.geoip_city_db = Some("/tmp/city.mmdb".to_string());

    let err = geo_databases(&config).expect_err("missing asn db should fail");

    assert_eq!(err, GeoConfigError::Incomplete);
    assert_eq!(err.message(), "geoip_city_db and geoip_asn_db must be configured together");
}

#[test]
fn geo_routing_takes_both_databases_or_none() {
    let mut config = test_config();
    assert_eq!(geo_databases(&config), Ok(None));
    config.geoip_city_db = Some("/tmp/city.mmdb".to_string());
    config.geoip_asn_db = Some("/tmp/asn.mmdb".to_string());
    assert_eq!(
        geo_databases(&config),
        Ok(Some(("/tmp/city.mmdb".to_string(), "/tmp/asn.mmdb".to_string())))
    );
}

#[test]
fn databases_are_outdated_after_45_days() {
    let limit = 45 * 24 * 60 * 60;
    assert_eq!(outdated_geo_db(1000, Some(1000 + limit)), None);
    assert_eq!(outdated_geo_db(1000, Some(1001 + limit)), Some(limit + 1));
    assert_eq!(outdated_geo_db(1000, Some(5)), None);
    assert_eq!(outdated_geo_db(1000, None), None);
}

#[test]
fn tildes_stand_for_the_home_directory() {
    assert_eq!(expand_home_dir("~", Some("/home/a")), "/home/a");
    assert_eq!(expand_home_dir("~/x/y", Some("/home/a")), "/home/a/x/y");
    assert_eq!(expand_home_dir("~/x", Some("/home/a/")), "/home/a/x");
    assert_eq!(expand_home_dir("~//x", Some("/home/a")), "/x");
    assert_eq!(expand_home_dir("~b/x", Some("/home/a")), "~b/x");
    assert_eq!(expand_home_dir("~/x", None), "~/x");
    assert_eq!(expand_home_dir("/x", Some("/home/a")), "/x");
}

#[test]
fn paths_of_a_configuration_are_expanded() {
    let mut config = test_config();
    config.cert = "~/cert".to_string();
    config.geoip_asn_db = Some("~/asn".to_string());
    config.server_name = "~/name".to_string();
    let config = config.expand_paths(Some("/h"));
    assert_eq!(config.cert, "/h/cert");
    assert_eq!(config.geoip_asn_db.as_deref(), Some("/h/asn"));
    assert_eq!(config.server_name, "~/name");
}

#[test]
fn records_are_written_to_the_primary_and_read_from_the_replica() {
    let url = |text: &str| Some(text.to_string());
    let mut config = test_config();
    assert_eq!(config.redis_servers(), None);
    config.redis_read_url = url("redis://replica/");
    assert_eq!(config.redis_servers(), None);
    config.redis = url("redis://one/");
    let servers = |write: &str, read: &str| Some((write.to_string(), read.to_string()));
    assert_eq!(config.redis_servers(), servers("redis://one/", "redis://replica/"));
    config.redis_write_url = url("redis://primary/");
    assert_eq!(config.redis_servers(), servers("redis://primary/", "redis://replica/"));
    config.redis_read_url = None;
    assert_eq!(config.redis_servers(), servers("redis://primary/", "redis://primary/"));
}

#[test]
fn policies_come_from_the_configuration() {
    let rule = |host: &str, policy: PolicyKind| PolicyConfig { host: host.to_string(), policy };
    let policies = build_policies(
        &vec![
            rule("A.genmeta.net", PolicyKind::OpenMulti),
            rule("a.genmeta.net.", PolicyKind::Standard),
            rule("example.com", PolicyKind::OpenMulti),
            rule("b.genmeta.net", PolicyKind::Standard),
        ],
        &vec!["genmeta.net".to_string()],
    );
    assert_eq!(
        policies.0,
        vec![
            (PolicyRule::Exact("a.genmeta.net".to_string()), DomainPolicy::OpenMulti),
            (PolicyRule::Exact("b.genmeta.net".to_string()), DomainPolicy::Standard),
        ]
    );
}

#[test]
fn seed_records_come_from_the_configuration() {
    let addr = SocketAddress::V4 { ip: 0x0808_0808, port: 3478 };
    let seed = |host: &str, endpoints: Vec<SocketAddress>| SeedRecordConfig {
        host: host.to_string(),
        endpoints,
    };
    let allowed = vec!["genmeta.net".to_string()];
    let seeds = build_seed_records(
        &vec![seed("A.genmeta.net", vec![addr, addr]), seed("example.com", Vec::new())],
        &allowed,
    )
    .unwrap();
    let records = seeds.get("a.genmeta.net").unwrap();
    assert_eq!(records.len(), 1);
    let answers = records[0].answers.as_ref().unwrap();
    assert_eq!(answers.len(), 2);
    assert_eq!(answers[1].name, "a.genmeta.net");
    assert_eq!(answers[1].endpoint, Some(Endpoint::direct(addr)));

    let error = build_seed_records(&vec![seed("example.com", vec![addr])], &allowed).unwrap_err();
    assert_eq!(error, AppError::DomainNotAllowed);
}

#[test]
fn good_responses_are_refreshed_before_they_end() {
    assert_eq!(refresh_success_delay(), 3 * 60 * 60 - 5 * 60);
    let good = refresh_decision(RefreshOutcome::Good);
    assert!(good.staple);
    assert_eq!(good.delay_secs, 10_500);
    for outcome in [
        RefreshOutcome::FetchFailed,
        RefreshOutcome::ValidationFailed,
        RefreshOutcome::Unknown,
        RefreshOutcome::Revoked,
    ] {
        let decision = refresh_decision(outcome);
        assert!(!decision.staple);
        assert_eq!(decision.delay_secs, 300);
    }
}

#[test]
fn responders_are_below_an_https_url() {
    assert_eq!(
        normalize_base_url(DEFAULT_OCSP_RESPONDER_BASE_URL).as_deref(),
        Ok("https://license.genmeta.net/ocsp")
    );
    assert_eq!(
        normalize_base_url("https://ca.example/a//").as_deref(),
        Ok("https://ca.example/a/ocsp")
    );
    assert_eq!(normalize_base_url("http://ca.example"), Err(OcspConfigError::NotHttps));
    assert_eq!(normalize_base_url("ca.example"), Err(OcspConfigError::InvalidUrl));
    assert_eq!(
        OcspConfigError::NotHttps.message(),
        "ocsp_responder_base_url must use https"
    );
}

#[test]
fn the_issuer_is_in_the_chain_or_configured() {
    let chain = |certs: &[&[u8]]| certs.iter().map(|cert| cert.to_vec()).collect::<Vec<_>>();
    let one: &[u8] = &[1];
    let two: &[u8] = &[2];
    let three: &[u8] = &[3];
    assert_eq!(
        ocsp_certificates(&chain(&[one, two]), Some(&chain(&[three]))),
        Ok((vec![1], vec![2]))
    );
    assert_eq!(ocsp_certificates(&chain(&[one]), Some(&chain(&[three]))), Ok((vec![1], vec![3])));
    assert_eq!(ocsp_certificates(&chain(&[one]), None), Err(OcspConfigError::MissingIssuer));
    assert_eq!(
        ocsp_certificates(&chain(&[one]), Some(&Vec::new())),
        Err(OcspConfigError::EmptyIssuer)
    );
    assert_eq!(ocsp_certificates(&Vec::new(), None), Err(OcspConfigError::MissingCertificate));
}

#[test]
fn responses_need_success_and_a_body() {
    assert_eq!(ocsp_body(true, "200 OK", "", vec![1]), Ok(vec![1]));
    assert_eq!(
        ocsp_body(false, "503 Service Unavailable", "busy", vec![1]),
        Err("OCSP responder returned HTTP status 503 Service Unavailable: busy".to_string())
    );
    assert_eq!(
        ocsp_body(true, "200 OK", "", Vec::new()),
        Err("OCSP responder returned an empty body".to_string())
    );
}

fn pem(bodies: &[&str]) -> Vec<u8> {
    let mut text = String::new();
    for body in bodies {
        text.push_str("-----BEGIN CERTIFICATE-----\n");
        text.push_str(body);
        text.push_str("\n-----END CERTIFICATE-----\n");
    }
    text.into_bytes()
}

#[test]
fn certificates_are_read_from_pem_files() {
    let two = pem(&["AQID", "BAUG"]);
    let one = pem(&["AQID"]);
    assert_eq!(load_pem_certificates(&two), Ok(vec![vec![1, 2, 3], vec![4, 5, 6]]));
    assert_eq!(load_pem_certificates(b"no certificate"), Ok(Vec::new()));
    assert!(matches!(
        load_pem_certificates(b"-----BEGIN CERTIFICATE-----\nAQID\n"),
        Err(OcspCertificatesError::Pem { .. })
    ));

    assert_eq!(
        build_ocsp_request_context(&two, Some(&pem(&["CAkK"]))),
        Ok((vec![1, 2, 3], vec![4, 5, 6]))
    );
    assert_eq!(
        build_ocsp_request_context(&one, Some(&pem(&["CAkK"]))),
        Ok((vec![1, 2, 3], vec![8, 9, 10]))
    );
    let config = |source: OcspConfigError| Err(OcspCertificatesError::Config { source });
    assert_eq!(build_ocsp_request_context(&one, None), config(OcspConfigError::MissingIssuer));
    assert_eq!(
        build_ocsp_request_context(&one, Some(&Vec::new())),
        config(OcspConfigError::EmptyIssuer)
    );
    assert_eq!(
        build_ocsp_request_context(b"", None),
        config(OcspConfigError::MissingCertificate)
    );
    assert!(matches!(
        build_ocsp_request_context(&one, Some(&b"-----BEGIN X\n".to_vec())),
        Err(OcspCertificatesError::Pem { .. })
    ));
}
