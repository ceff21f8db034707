//! Records in memory and in the store.
use std::collections::HashMap;

use ddns::protocol::signature::SignatureFields;
use ddns::protocol::wire::ResponseRecord;
use ddns::server::geo::GeoTraits;
use ddns::server::redis_lookup::{LookupPhase, RedisLookup, RedisQuery, RedisReply};
use ddns::server::redis_publish::{
    old_packet, plan_clear_record, plan_publish_record, CommandRun, PlannedCommand, RedisCommand,
};
use ddns::server::storage::{
    cert_fingerprint_hex, fingerprint_hex, redis_all_index_key, redis_asn_index_key,
    redis_blacklist_key, redis_country_index_key, redis_primary_key, seconds_or_zero,
    unix_now_secs, HostRecords, MemoryStorage, Record, RecordIndexTags, StoredRecord,
};

fn fp(seed: u8) -> [u8; 32] {
    [seed; 32]
}

fn tags(country: Option<&str>, asn: Option<u32>) -> RecordIndexTags {
    RecordIndexTags {
        countries: country.into_iter().map(str::to_owned).collect(),
        asns: asn.into_iter().collect(),
    }
}

fn record(country: Option<&str>, asn: Option<u32>) -> Record {
    record_until(country, asn, 60_000_000_000)
}

fn record_until(country: Option<&str>, asn: Option<u32>, expire: u128) -> Record {
    Record {
        dns_bytes: Vec::new(),
        cert_bytes: Vec::new(),
        signature_fields: SignatureFields::empty(),
        expire,
        index_tags: tags(country, asn),
    }
}

fn stored(expire_unix_secs: u64, dns: &[u8]) -> StoredRecord {
    StoredRecord {
        expire_unix_secs,
        fingerprint: fp(7),
        dns: dns.to_vec(),
        cert: vec![4, 5, 6],
        signature_fields: SignatureFields::empty(),
    }
}

#[test]
fn host_records_collect_candidates_prefers_asn_then_country_then_recent() {
    let mut host = HostRecords::default();
    host.insert(fp(1), record(Some("US"), Some(64512)));
    host.insert(fp(2), record(Some("US"), None));
    host.insert(fp(3), record(Some("JP"), None));

    let candidates = host.collect_candidates(Some("US"), Some(64512), 8, 2, 2, 8);

    assert_eq!(candidates, vec![fp(1), fp(2), fp(3)]);
}

#[test]
fn host_records_remove_cleans_secondary_indexes() {
    let mut host = HostRecords::default();
    let fingerprint = fp(9);
    host.insert(fingerprint, record(Some("US"), Some(64512)));

    let removed = host.remove(&fingerprint);

    assert!(removed.is_some());
    assert!(host.is_empty());
    assert!(host.get(&fingerprint).is_none());
    assert!(host.collect_candidates(Some("US"), Some(64512), 8, 8, 8, 8).is_empty());
}

#[test]
fn recent_records_come_first() {
    let mut host = HostRecords::default();
    host.insert(fp(1), record(None, None));
    host.insert(fp(2), record(None, None));
    host.insert(fp(1), record(None, None));

    assert_eq!(host.collect_candidates(None, None, 8, 8, 8, 8), vec![fp(1), fp(2)]);
    assert_eq!(host.collect_candidates(None, None, 1, 8, 8, 8), vec![fp(1)]);
}

#[test]
fn publishing_again_moves_a_record_between_indexes() {
    let mut host = HostRecords::default();
    host.insert(fp(1), record(Some("US"), Some(1)));
    host.insert(fp(1), record(Some("JP"), Some(2)));

    assert!(host.collect_candidates(Some("US"), Some(1), 8, 8, 8, 0).is_empty());
    assert_eq!(host.collect_candidates(Some("JP"), Some(2), 8, 8, 8, 0), vec![fp(1)]);
}

#[test]
fn stale_records_are_dropped() {
    let mut host = HostRecords::default();
    host.insert(fp(1), record_until(Some("US"), None, 10));
    host.insert(fp(2), record_until(Some("US"), None, 20));

    host.retain_active(10);

    assert!(host.get(&fp(1)).is_none());
    assert_eq!(host.collect_candidates(Some("US"), None, 8, 8, 8, 8), vec![fp(2)]);
}

#[test]
fn stored_record_roundtrips_signature_fields() {
    let record = StoredRecord {
        expire_unix_secs: 123,
        fingerprint: fp(7),
        dns: vec![1, 2, 3],
        cert: vec![4, 5, 6],
        signature_fields: SignatureFields {
            content_digest: b"sha-256=:abc:".to_vec(),
            signature_input:
                b"dns=(\"content-digest\");created=1;keyid=\"sha256:abc\";alg=\"ed25519\"".to_vec(),
            signature: b"dns=:sig:".to_vec(),
        },
    };

    let decoded = StoredRecord::decode(&record.encode()).expect("stored record decodes");

    assert_eq!(decoded.expire_unix_secs, record.expire_unix_secs);
    assert_eq!(decoded.fingerprint, record.fingerprint);
    assert_eq!(decoded.dns, record.dns);
    assert_eq!(decoded.cert, record.cert);
    assert_eq!(decoded.signature_fields, record.signature_fields);
}

#[test]
fn cut_off_stored_records_do_not_decode() {
    let encoded = stored(5, &[1, 2, 3]).encode();
    for len in 0..encoded.len() {
        assert!(StoredRecord::decode(&encoded[..len]).is_none());
    }
}

#[test]
fn stored_records_with_a_tail_do_not_decode() {
    let mut encoded = stored(5, &[1, 2, 3]).encode();
    assert!(StoredRecord::decode(&encoded).is_some());
    encoded.push(0);
    assert!(StoredRecord::decode(&encoded).is_none());
}

#[test]
fn records_are_not_kept_under_the_blacklist() {
    let blocked = redis_blacklist_key();
    assert_ne!(redis_primary_key("ddns", "blacklist"), blocked);
    assert_ne!(redis_all_index_key("ddns"), blocked);
    assert_ne!(redis_country_index_key("ddns", "blacklist"), blocked);
    assert_ne!(redis_asn_index_key("ddns", 0), blocked);
}

#[test]
fn redis_blacklist_key_is_stable() {
    assert_eq!(redis_blacklist_key(), "ddns:blacklist");
}

#[test]
fn redis_keys_follow_the_contract() {
    assert_eq!(redis_primary_key("nat.genmeta.net", "db69"), "nat.genmeta.net:fp:db69");
    assert_eq!(redis_all_index_key("nat.genmeta.net"), "nat.genmeta.net:idx:all");
    assert_eq!(redis_country_index_key("nat.genmeta.net", "CN"), "nat.genmeta.net:idx:country:CN");
    assert_eq!(redis_asn_index_key("nat.genmeta.net", 45102), "nat.genmeta.net:idx:asn:45102");
}

#[test]
fn fingerprints_name_certificates() {
    assert_eq!(fingerprint_hex(&fp(0xab)), "ab".repeat(32));
    assert_eq!(
        cert_fingerprint_hex(b"abc"),
        "ba7816bf8f01cfea414140de5dae2223b00361a396177a9cb410ff61f20015ad"
    );
}

#[test]
fn clocks_before_the_epoch_read_zero() {
    assert_eq!(seconds_or_zero(None), 0);
    assert_eq!(seconds_or_zero(Some(12)), 12);
    assert!(unix_now_secs() > 1_600_000_000);
}

#[test]
fn memory_storage_tracks_blacklisted_hosts() {
    let mut storage = MemoryStorage::with_blacklist(vec!["blocked.example".to_string()]);

    assert!(storage.is_blacklisted("blocked.example"));
    assert!(!storage.is_blacklisted("allowed.example"));

    storage.blacklist_host("other.example".to_string());
    assert!(storage.is_blacklisted("other.example"));

    storage.remove_blacklist_host("blocked.example");
    assert!(!storage.is_blacklisted("blocked.example"));
}

fn blacklist_query() {
    let lookup = RedisLookup::new("blocked.example.genmeta.net".to_string(), None, None, 100);
    assert_eq!(
        lookup.next_query(),
        Some(RedisQuery::IsMember {
            key: redis_blacklist_key().to_string(),
            member: "blocked.example.genmeta.net".to_string(),
        })
    );
}

#[test]
fn lookup_redis_host_blacklisted_queries_external_blacklist_set() {
    blacklist_query();
}

#[test]
fn tests_redis_host_blacklisted_queries_external_blacklist_set() {
    blacklist_query();
    let mut lookup = RedisLookup::new("blocked.example.genmeta.net".to_string(), None, None, 100);
    lookup.on_reply(RedisReply::IsMember(true));
    assert_eq!(lookup.phase, LookupPhase::Blocked);
    assert_eq!(lookup.next_query(), None);
}

#[test]
fn redis_lookup_reads_indexes_and_then_records() {
    let source = GeoTraits { country: Some("CN".to_string()), city: None, asn: Some(7), point: None };
    let mut lookup = RedisLookup::new("a.genmeta.net".to_string(), None, Some(&source), 100);
    lookup.on_reply(RedisReply::IsMember(false));

    let mut ranges = Vec::new();
    while let Some(RedisQuery::Range { key, .. }) = lookup.next_query() {
        let members = if key.ends_with(":idx:all") {
            vec!["f1".to_string(), "f2".to_string(), "f3".to_string()]
        } else {
            vec!["f1".to_string()]
        };
        ranges.push(key);
        lookup.on_reply(RedisReply::Range(members));
    }
    assert_eq!(
        ranges,
        vec![
            "a.genmeta.net:idx:asn:7".to_string(),
            "a.genmeta.net:idx:country:CN".to_string(),
            "a.genmeta.net:idx:all".to_string(),
        ]
    );

    let fresh = stored(101, &[1]).encode();
    let stale = stored(100, &[2]).encode();
    let mut asked = Vec::new();
    while let Some(RedisQuery::Get { key }) = lookup.next_query() {
        let value = match asked.len() {
            0 => Some(fresh.clone()),
            1 => Some(stale.clone()),
            _ => None,
        };
        asked.push(key);
        lookup.on_reply(RedisReply::Get(value));
    }
    assert_eq!(
        asked,
        vec![
            "a.genmeta.net:fp:f1".to_string(),
            "a.genmeta.net:fp:f2".to_string(),
            "a.genmeta.net:fp:f3".to_string(),
        ]
    );
    assert_eq!(lookup.phase, LookupPhase::Found);
    assert_eq!(lookup.records, vec![ResponseRecord::unsigned(vec![1], vec![4, 5, 6])]);
}

fn commands(plan: &[PlannedCommand]) -> Vec<&RedisCommand> {
    plan.iter().map(|planned| &planned.command).collect()
}

#[test]
fn publication_sets_the_record_and_moves_its_indexes() {
    let chain = vec![b"abc".to_vec()];
    let member = cert_fingerprint_hex(b"abc");
    let plan = plan_publish_record(
        "a.genmeta.net",
        &[1, 2],
        &chain,
        SignatureFields::empty(),
        Some(&tags(Some("US"), None)),
        &tags(Some("CN"), Some(7)),
        30,
        1000,
    );
    let commands = commands(&plan);

    let removed = RedisCommand::Remove {
        key: "a.genmeta.net:idx:country:US".to_string(),
        member: member.clone(),
    };
    assert!(commands.contains(&&removed));
    for key in ["a.genmeta.net:idx:all", "a.genmeta.net:idx:country:CN", "a.genmeta.net:idx:asn:7"] {
        let added =
            RedisCommand::Add { key: key.to_string(), member: member.clone(), score: 1000 };
        assert!(commands.contains(&&added));
    }
    let set = commands
        .iter()
        .find_map(|command| match command {
            RedisCommand::SetFor { key, value, ttl_secs } => Some((key, value, ttl_secs)),
            _ => None,
        })
        .expect("the record is set");
    assert_eq!(*set.0, redis_primary_key("a.genmeta.net", &member));
    assert_eq!(*set.2, 30);
    let decoded = StoredRecord::decode(set.1).unwrap();
    assert_eq!(decoded.expire_unix_secs, 1030);
    assert_eq!(decoded.dns, vec![1, 2]);
    assert_eq!(decoded.cert, b"abc".to_vec());
    assert_eq!(old_packet(Some(set.1.clone())), Some(vec![1, 2]));
    assert_eq!(old_packet(Some(vec![1])), None);
    assert_eq!(old_packet(None), None);
}

#[test]
fn clearing_takes_the_record_and_its_indexes_away() {
    let chain = vec![b"abc".to_vec()];
    let member = cert_fingerprint_hex(b"abc");
    let plan =
        plan_clear_record("a.genmeta.net", &chain, Some(&tags(Some("US"), None)), 30, 1000);
    let commands = commands(&plan);

    let deleted = RedisCommand::Delete { key: redis_primary_key("a.genmeta.net", &member) };
    assert!(commands.contains(&&deleted));
    for key in ["a.genmeta.net:idx:all", "a.genmeta.net:idx:country:US"] {
        let removed = RedisCommand::Remove { key: key.to_string(), member: member.clone() };
        assert!(commands.contains(&&removed));
    }
}

#[test]
fn a_failed_command_ends_the_run_where_it_is_required() {
    let command = |key: &str, required: bool| PlannedCommand {
        command: RedisCommand::Delete { key: key.to_string() },
        required,
    };
    let mut run = CommandRun::new(vec![command("a", false), command("b", true)]);
    assert_eq!(run.current(), Some(&RedisCommand::Delete { key: "a".to_string() }));
    assert!(run.on_outcome(Some("down".to_string())).is_ok());
    assert_eq!(run.current(), Some(&RedisCommand::Delete { key: "b".to_string() }));
    let error = run.on_outcome(Some("down".to_string())).unwrap_err();
    assert_eq!(error.status(), 503);
    assert_eq!(error.message(), "redis error: down");
}

/// A store in memory that carries commands out.
#[derive(Default)]
struct Store {
    values: HashMap<String, Vec<u8>>,
    sets: HashMap<String, HashMap<String, u64>>,
}

impl Store {
    fn perform(&mut self, plan: Vec<PlannedCommand>) {
        let mut run = CommandRun::new(plan);
        while let Some(command) = run.current() {
            match command {
                RedisCommand::Remove { key, member } => {
                    self.sets.entry(key.clone()).or_default().remove(member);
                }
                RedisCommand::SetFor { key, value, .. } => {
                    self.values.insert(key.clone(), value.clone());
                }
                RedisCommand::Add { key, member, score } => {
                    self.sets.entry(key.clone()).or_default().insert(member.clone(), *score);
                }
                RedisCommand::Delete { key } => {
                    self.values.remove(key);
                }
                RedisCommand::Expire { .. } => {}
                RedisCommand::TrimUpTo { key, cutoff } => {
                    self.sets.entry(key.clone()).or_default().retain(|_, score| *score > *cutoff);
                }
            }
            run.on_outcome(None).unwrap();
        }
    }

    fn lookup(&self, host: &str, source: Option<&GeoTraits>, now: u64) -> Vec<ResponseRecord> {
        let mut lookup = RedisLookup::new(host.to_string(), None, source, now);
        while let Some(query) = lookup.next_query() {
            let reply = match query {
                RedisQuery::IsMember { .. } => RedisReply::IsMember(false),
                RedisQuery::Range { key, stop } => {
                    let mut members: Vec<_> =
                        self.sets.get(&key).into_iter().flatten().map(|(m, s)| (*s, m.clone())).collect();
                    members.sort();
                    let newest = members.into_iter().rev().take(stop + 1);
                    RedisReply::Range(newest.map(|(_, member)| member).collect())
                }
                RedisQuery::Get { key } => RedisReply::Get(self.values.get(&key).cloned()),
            };
            lookup.on_reply(reply);
        }
        lookup.records
    }

    fn indexes_of(&self, member: &str) -> Vec<String> {
        let mut keys: Vec<String> = self
            .sets
            .iter()
            .filter(|(_, members)| members.contains_key(member))
            .map(|(key, _)| key.clone())
            .collect();
        keys.sort();
        keys
    }
}

fn publication(cert: &[u8], old: Option<&RecordIndexTags>, new: &RecordIndexTags, now: u64) -> Vec<PlannedCommand> {
    plan_publish_record(
        "a.genmeta.net",
        &[1, 2],
        &vec![cert.to_vec()],
        SignatureFields::empty(),
        old,
        new,
        30,
        now,
    )
}

#[test]
fn a_store_has_what_was_published_until_it_is_withdrawn() {
    let us = tags(Some("US"), None);
    let cn = tags(Some("CN"), Some(7));
    let member = cert_fingerprint_hex(b"abc");
    let mut store = Store::default();

    store.perform(publication(b"abc", None, &us, 1000));
    store.perform(publication(b"other", None, &us, 1001));
    assert_eq!(
        store.indexes_of(&member),
        vec!["a.genmeta.net:idx:all".to_string(), "a.genmeta.net:idx:country:US".to_string()]
    );

    store.perform(publication(b"abc", Some(&us), &cn, 1002));
    assert_eq!(
        store.indexes_of(&member),
        vec![
            "a.genmeta.net:idx:all".to_string(),
            "a.genmeta.net:idx:asn:7".to_string(),
            "a.genmeta.net:idx:country:CN".to_string(),
        ]
    );
    let record = |cert: &[u8]| ResponseRecord::unsigned(vec![1, 2], cert.to_vec());
    assert_eq!(
        store.lookup("a.genmeta.net", None, 1003),
        vec![record(b"abc"), record(b"other")]
    );
    assert_eq!(store.lookup("a.genmeta.net", None, 1031), vec![record(b"abc")]);
    let near = GeoTraits { country: Some("US".to_string()), city: None, asn: None, point: None };
    assert_eq!(
        store.lookup("a.genmeta.net", Some(&near), 1003),
        vec![record(b"other"), record(b"abc")]
    );

    store.perform(plan_clear_record(
        "a.genmeta.net",
        &vec![b"abc".to_vec()],
        Some(&cn),
        30,
        1004,
    ));
    assert!(store.indexes_of(&member).is_empty());
    assert_eq!(store.lookup("a.genmeta.net", None, 1005), vec![record(b"other")]);
}

#[test]
fn an_index_entry_without_a_record_is_passed_over() {
    let mut store = Store::default();
    store.perform(publication(b"abc", None, &tags(None, None), 1000));
    store.values.clear();
    assert!(store.lookup("a.genmeta.net", None, 1001).is_empty());
}
