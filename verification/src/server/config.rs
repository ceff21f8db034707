//! The configuration of the server.
use vstd::prelude::*;

use crate::net::{EndpointAddr, SocketAddress};
use crate::protocol::packet::{Answer, AnswerModel, Endpoint};
use crate::protocol::signature::{SignatureFields, SignatureFieldsModel};
use crate::protocol::wire::views;
use crate::server::error::{allowed_host, normalize_host, AppError, AppFault};
use crate::server::policy::{
    law_the_first_rule_decides, policy_of, DomainPolicies, DomainPolicy, PolicyRule,
};
use crate::server::query::SeedRecords;
use crate::server::ranking::{LookupModel, LookupRecord};
use crate::text::{join2, strip_prefix, text_eq};

verus! {

/// The command line.
#[derive(Debug, PartialEq, Eq)]
pub struct Options {
    /// The path of the configuration file.
    pub config: String,
}

/// A policy in the configuration file.
#[derive(Debug, Clone, Copy, PartialEq, Eq, Structural)]
pub enum PolicyKind {
    Standard,
    OpenMulti,
}

/// A policy rule in the configuration file.
#[derive(Debug, PartialEq, Eq)]
pub struct PolicyConfig {
    pub host: String,
    pub policy: PolicyKind,
}

/// Configured endpoints of a host.
#[derive(Debug, PartialEq, Eq)]
pub struct SeedRecordConfig {
    pub host: String,
    pub endpoints: Vec<SocketAddress>,
}

/// The configuration file.
#[derive(Debug, PartialEq, Eq)]
pub struct Config {
    pub redis: Option<String>,
    /// The Redis server that records are written to, where it is not `redis`.
    pub redis_write_url: Option<String>,
    /// The Redis server that records are read from, where it is not the one that they are
    /// written to.
    pub redis_read_url: Option<String>,
    pub binds: Vec<String>,
    pub server_name: String,
    pub cert: String,
    pub key: String,
    pub root_cert: String,
    pub ocsp_issuer_cert: Option<String>,
    pub ocsp_responder_base_url: Option<String>,
    pub require_signature: bool,
    pub ttl_secs: u64,
    /// The domains that records are kept for.
    pub host_allowlist: Vec<String>,
    pub domain_policies: Vec<PolicyConfig>,
    pub seed_records: Vec<SeedRecordConfig>,
    pub geoip_city_db: Option<String>,
    pub geoip_asn_db: Option<String>,
}

/// A path below a directory. An absolute path is kept.
pub open spec fn joined(dir: Seq<char>, path: Seq<char>) -> Seq<char> {
    if path.len() > 0 && path[0] == '/' {
        path
    } else if dir.len() == 0 || dir.last() == '/' {
        dir + path
    } else {
        dir + seq!['/'] + path
    }
}

/// A path with a leading tilde replaced by the home directory, where there is one.
pub open spec fn expanded(path: Seq<char>, home: Option<Seq<char>>) -> Seq<char> {
    match home {
        Some(home) => if path == "~"@ {
            home
        } else if "~/"@.is_prefix_of(path) {
            joined(home, path.skip(2))
        } else {
            path
        },
        None => path,
    }
}

/// Replaces a leading tilde by the home directory, where there is one.
pub fn expand_home_dir(path: &str, home: Option<&str>) -> (r: String)
    ensures
        r@ == expanded(
            path@,
            match home {
                Some(home) => Some(home@),
                None => None,
            },
        ),
{
    proof {
        reveal_strlit("~/");
        reveal_strlit("/");
    }
    let home = match home {
        Some(home) => home,
        None => return path.to_owned(),
    };
    if text_eq(path, "~") {
        return home.to_owned();
    }
    match strip_prefix(path, "~/") {
        Some(rest) => {
            if rest.unicode_len() > 0 && rest.get_char(0) == '/' {
                return rest.to_owned();
            }
            let n = home.unicode_len();
            if n == 0 || home.get_char(n - 1) == '/' {
                return join2(home, rest);
            }
            let mut out = String::new();
            out.append(home);
            out.append("/");
            out.append(rest);
            assert(out@ =~= home@ + seq!['/'] + rest@);
            out
        },
        None => path.to_owned(),
    }
}

pub open spec fn expanded_option(path: Option<String>, home: Option<Seq<char>>) -> Option<
    Seq<char>,
> {
    match path {
        Some(path) => Some(expanded(path@, home)),
        None => None,
    }
}

fn expand_option(path: Option<String>, home: Option<&str>) -> (r: Option<String>)
    ensures
        crate::server::geo::text_view(r) == expanded_option(
            path,
            match home {
                Some(home) => Some(home@),
                None => None,
            },
        ),
{
    match path {
        Some(path) => Some(expand_home_dir(path.as_str(), home)),
        None => None,
    }
}

impl Config {
    /// Replaces leading tildes in the paths by the home directory. Nothing else
    /// changes.
    pub fn expand_paths(self, home: Option<&str>) -> (r: Self)
        ensures
            ({
                let home = match home {
                    Some(home) => Some(home@),
                    None => None,
                };
                &&& r.cert@ == expanded(self.cert@, home)
                &&& r.key@ == expanded(self.key@, home)
                &&& r.root_cert@ == expanded(self.root_cert@, home)
                &&& crate::server::geo::text_view(r.ocsp_issuer_cert) == expanded_option(
                    self.ocsp_issuer_cert,
                    home,
                )
                &&& crate::server::geo::text_view(r.geoip_city_db) == expanded_option(
                    self.geoip_city_db,
                    home,
                )
                &&& crate::server::geo::text_view(r.geoip_asn_db) == expanded_option(
                    self.geoip_asn_db,
                    home,
                )
                &&& r.redis == self.redis
                &&& r.redis_write_url == self.redis_write_url
                &&& r.redis_read_url == self.redis_read_url
                &&& r.binds == self.binds
                &&& r.server_name == self.server_name
                &&& r.ocsp_responder_base_url == self.ocsp_responder_base_url
                &&& r.require_signature == self.require_signature
                &&& r.ttl_secs == self.ttl_secs
                &&& r.host_allowlist == self.host_allowlist
                &&& r.domain_policies == self.domain_policies
                &&& r.seed_records == self.seed_records
            }),
    {
        Config {
            redis: self.redis,
            redis_write_url: self.redis_write_url,
            redis_read_url: self.redis_read_url,
            binds: self.binds,
            server_name: self.server_name,
            cert: expand_home_dir(self.cert.as_str(), home),
            key: expand_home_dir(self.key.as_str(), home),
            root_cert: expand_home_dir(self.root_cert.as_str(), home),
            ocsp_issuer_cert: expand_option(self.ocsp_issuer_cert, home),
            ocsp_responder_base_url: self.ocsp_responder_base_url,
            require_signature: self.require_signature,
            ttl_secs: self.ttl_secs,
            host_allowlist: self.host_allowlist,
            domain_policies: self.domain_policies,
            seed_records: self.seed_records,
            geoip_city_db: expand_option(self.geoip_city_db, home),
            geoip_asn_db: expand_option(self.geoip_asn_db, home),
        }
    }

    /// The Redis servers that records are written to and read from. There are none where
    /// no server to write to is configured: records are kept in memory then.
    pub fn redis_servers(&self) -> (r: Option<(String, String)>)
        ensures
            match r {
                Some((write, read)) => self.primary() == Some(write@) && read@ == (
                match self.redis_read_url {
                    Some(url) => url@,
                    None => write@,
                }),
                None => self.primary() is None,
            },
    {
        let write = match &self.redis_write_url {
            Some(url) => url.clone(),
            None => match &self.redis {
                Some(url) => url.clone(),
                None => return None,
            },
        };
        let read = match &self.redis_read_url {
            Some(url) => url.clone(),
            None => write.clone(),
        };
        Some((write, read))
    }

    /// The Redis server that records are written to, where there is one.
    pub open spec fn primary(self) -> Option<Seq<char>> {
        match (self.redis_write_url, self.redis) {
            (Some(url), _) => Some(url@),
            (None, Some(url)) => Some(url@),
            (None, None) => None,
        }
    }

    /// All IPv4 and all IPv6 addresses.
    pub fn default_binds() -> (r: Vec<String>)
        ensures
            views(r@) == seq!["inet://0.0.0.0:4433"@, "inet://[::]:4433"@],
    {
        let mut binds: Vec<String> = Vec::new();
        binds.push("inet://0.0.0.0:4433".to_owned());
        binds.push("inet://[::]:4433".to_owned());
        assert(views(binds@) =~= seq!["inet://0.0.0.0:4433"@, "inet://[::]:4433"@]);
        binds
    }

    pub fn default_server_name() -> (r: String)
        ensures
            r@ == "localhost"@,
    {
        "localhost".to_owned()
    }

    pub fn default_cert() -> (r: String)
        ensures
            r@ == "examples/keychain/localhost/localhost-ECC.crt"@,
    {
        "examples/keychain/localhost/localhost-ECC.crt".to_owned()
    }

    pub fn default_key() -> (r: String)
        ensures
            r@ == "examples/keychain/localhost/localhost-ECC.key"@,
    {
        "examples/keychain/localhost/localhost-ECC.key".to_owned()
    }

    pub fn default_root_cert() -> (r: String)
        ensures
            r@ == "examples/keychain/root/rootCA-ECC.crt"@,
    {
        "examples/keychain/root/rootCA-ECC.crt".to_owned()
    }

    pub fn default_require_signature() -> (r: bool)
        ensures
            r,
    {
        true
    }

    /// The domains that records are kept for.
    pub fn default_host_allowlist() -> (r: Vec<String>)
        ensures
            views(r@) == seq!["genmeta.net"@],
    {
        let mut allowlist: Vec<String> = Vec::new();
        allowlist.push("genmeta.net".to_owned());
        assert(views(allowlist@) =~= seq!["genmeta.net"@]);
        allowlist
    }

    pub fn default_ttl_secs() -> (r: u64)
        ensures
            r == 30,
    {
        30
    }
}

/// Why the databases of places cannot be used.
#[derive(Debug, Clone, Copy, PartialEq, Eq, Structural)]
pub enum GeoConfigError {
    /// Only one of the two databases is configured.
    Incomplete,
}

impl GeoConfigError {
    pub fn message(&self) -> (r: &'static str)
        ensures
            r@ == "geoip_city_db and geoip_asn_db must be configured together"@,
    {
        "geoip_city_db and geoip_asn_db must be configured together"
    }
}

/// The databases of places to use: the one of cities and the one of autonomous
/// systems, or none.
pub fn geo_databases(config: &Config) -> (r: Result<Option<(String, String)>, GeoConfigError>)
    ensures
        match (r, config.geoip_city_db, config.geoip_asn_db) {
            (Ok(Some((city, asn))), Some(city_db), Some(asn_db)) => city@ == city_db@ && asn@
                == asn_db@,
            (Ok(None), None, None) => true,
            (Err(_), Some(_), None) => true,
            (Err(_), None, Some(_)) => true,
            _ => false,
        },
{
    match (&config.geoip_city_db, &config.geoip_asn_db) {
        (Some(city), Some(asn)) => Ok(Some((city.clone(), asn.clone()))),
        (None, None) => Ok(None),
        _ => Err(GeoConfigError::Incomplete),
    }
}

/// Whether distances between places count.
pub const GEO_CITY_DISTANCE_ROUTING: bool = true;

/// How well a place has to be known for its distance to count.
pub const GEO_MAX_ACCURACY_RADIUS_KM: u32 = 100;

/// The age in seconds from which on a database is outdated: 45 days.
pub const STALE_GEO_DB_AGE_SECS: u64 = 3_888_000;

/// The age of a database where it is outdated. Without a clock it is new.
pub fn outdated_geo_db(build_epoch: u64, now_secs: Option<u64>) -> (r: Option<u64>)
    ensures
        ({
            let age = match now_secs {
                Some(now) => if now >= build_epoch {
                    now - build_epoch
                } else {
                    0
                },
                None => 0,
            };
            match r {
                Some(shown) => shown == age && age > STALE_GEO_DB_AGE_SECS,
                None => age <= STALE_GEO_DB_AGE_SECS,
            }
        }),
        r matches Some(age) ==> age > 3_888_000,
        r is None ==> (now_secs matches Some(now) ==> now <= build_epoch + 3_888_000),
{
    let now = match now_secs {
        Some(now) => now,
        None => build_epoch,
    };
    let age: u64 = if now >= build_epoch { now - build_epoch } else { 0 };
    if age > STALE_GEO_DB_AGE_SECS {
        Some(age)
    } else {
        None
    }
}

pub open spec fn policy_of_kind(kind: PolicyKind) -> DomainPolicy {
    match kind {
        PolicyKind::Standard => DomainPolicy::Standard,
        PolicyKind::OpenMulti => DomainPolicy::OpenMulti,
    }
}

/// The exact rules that the configuration gives, as host and policy. A host that is
/// not allowed gives none, and of rules in a row for one host the first counts.
pub open spec fn configured_rules(
    rules: Seq<(Seq<char>, PolicyKind)>,
    allowlist: Seq<Seq<char>>,
) -> Seq<(Seq<char>, DomainPolicy)>
    decreases rules.len(),
{
    if rules.len() == 0 {
        Seq::empty()
    } else {
        let front = configured_rules(rules.drop_last(), allowlist);
        match allowed_host(rules.last().0, allowlist) {
            Ok(host) => if front.len() > 0 && front.last().0 == host {
                front
            } else {
                front.push((host, policy_of_kind(rules.last().1)))
            },
            Err(_) => front,
        }
    }
}

/// The rules of policies that are all exact, as host and policy.
pub open spec fn exact_rules(policies: Seq<(PolicyRule, DomainPolicy)>) -> Seq<
    (Seq<char>, DomainPolicy),
> {
    policies.map_values(
        |p: (PolicyRule, DomainPolicy)|
            (
                match p.0 {
                    PolicyRule::Exact(host) => host@,
                    PolicyRule::Suffix(host) => host@,
                },
                p.1,
            ),
    )
}

/// The policies that the configuration gives.
pub fn build_policies(rules: &Vec<PolicyConfig>, allowlist: &Vec<String>) -> (r: DomainPolicies)
    ensures
        forall|i: int| 0 <= i < r.0@.len() ==> (#[trigger] r.0@[i]).0 is Exact,
        exact_rules(r.0@) == configured_rules(
            rules@.map_values(|c: PolicyConfig| (c.host@, c.policy)),
            views(allowlist@),
        ),
{
    let ghost all = rules@.map_values(|c: PolicyConfig| (c.host@, c.policy));
    let ghost allow = views(allowlist@);
    let mut out: Vec<(PolicyRule, DomainPolicy)> = Vec::new();
    let mut i: usize = 0;
    assert(exact_rules(out@) =~= Seq::<(Seq<char>, DomainPolicy)>::empty());
    while i < rules.len()
        invariant
            i <= rules@.len(),
            all == rules@.map_values(|c: PolicyConfig| (c.host@, c.policy)),
            allow == views(allowlist@),
            forall|j: int| 0 <= j < out@.len() ==> (#[trigger] out@[j]).0 is Exact,
            exact_rules(out@) == configured_rules(all.take(i as int), allow),
        decreases rules@.len() - i,
    {
        proof {
            assert(all.take(i + 1).drop_last() =~= all.take(i as int));
            assert(all.take(i + 1).last() == (rules@[i as int].host@, rules@[i as int].policy));
        }
        match normalize_host(rules[i].host.as_str(), allowlist) {
            Ok(host) => {
                let repeated = if out.len() > 0 {
                    assert(exact_rules(out@).last() == exact_rules(out@)[out@.len() - 1]);
                    match &out[out.len() - 1].0 {
                        PolicyRule::Exact(last) => text_eq(last.as_str(), host.as_str()),
                        PolicyRule::Suffix(_) => false,
                    }
                } else {
                    false
                };
                if !repeated {
                    let policy = match rules[i].policy {
                        PolicyKind::Standard => DomainPolicy::Standard,
                        PolicyKind::OpenMulti => DomainPolicy::OpenMulti,
                    };
                    let ghost before = out@;
                    out.push((PolicyRule::Exact(host), policy));
                    assert(exact_rules(out@) =~= exact_rules(before).push((host@, policy)));
                }
            },
            Err(_) => {},
        }
        i = i + 1;
    }
    assert(all.take(i as int) =~= all);
    DomainPolicies(out)
}

/// The configured record of a host: an endpoint for each address, in a packet that is
/// yet to be encoded.
pub open spec fn seed_record(host: Seq<char>, endpoints: Seq<SocketAddress>) -> LookupModel {
    LookupModel {
        signature_fields: SignatureFieldsModel::unsigned(),
        dns: None,
        answers: Some(
            endpoints.map_values(
                |addr: SocketAddress|
                    AnswerModel {
                        name: host,
                        endpoint: Some(
                            Endpoint {
                                addr,
                                agent: None,
                                main: false,
                                sequence: None,
                                signed: false,
                                load: None,
                            },
                        ),
                    },
            ),
        ),
        cert: Seq::empty(),
    }
}

/// The configured records, in order. An entry without endpoints gives none, and one
/// for a host that is not allowed is an error.
pub open spec fn configured_seeds(
    seeds: Seq<(Seq<char>, Seq<SocketAddress>)>,
    allowlist: Seq<Seq<char>>,
) -> Result<Seq<(Seq<char>, LookupModel)>, AppFault>
    decreases seeds.len(),
{
    if seeds.len() == 0 {
        Ok(Seq::empty())
    } else {
        match configured_seeds(seeds.drop_last(), allowlist) {
            Err(fault) => Err(fault),
            Ok(front) => if seeds.last().1.len() == 0 {
                Ok(front)
            } else {
                match allowed_host(seeds.last().0, allowlist) {
                    Err(fault) => Err(fault),
                    Ok(host) => Ok(front.push((host, seed_record(host, seeds.last().1)))),
                }
            },
        }
    }
}

proof fn lemma_configured_seeds_fail_on(
    seeds: Seq<(Seq<char>, Seq<SocketAddress>)>,
    allowlist: Seq<Seq<char>>,
    n: int,
)
    requires
        0 <= n <= seeds.len(),
        configured_seeds(seeds.take(n), allowlist) is Err,
    ensures
        configured_seeds(seeds, allowlist) == configured_seeds(seeds.take(n), allowlist),
    decreases seeds.len() - n,
{
    if n < seeds.len() {
        assert(seeds.take(n + 1).drop_last() =~= seeds.take(n));
        lemma_configured_seeds_fail_on(seeds, allowlist, n + 1);
    } else {
        assert(seeds.take(n) =~= seeds);
    }
}

fn seed_lookup_record(host: &String, endpoints: &Vec<SocketAddress>) -> (r: LookupRecord)
    ensures
        r@ == seed_record(host@, endpoints@),
{
    let mut answers: Vec<Answer> = Vec::new();
    let ghost wanted = seed_record(host@, endpoints@).answers->0;
    let mut i: usize = 0;
    while i < endpoints.len()
        invariant
            i <= endpoints@.len(),
            wanted == seed_record(host@, endpoints@).answers->0,
            answers@.len() == i,
            forall|j: int| 0 <= j < i ==> (#[trigger] answers@[j])@ == wanted[j],
        decreases endpoints@.len() - i,
    {
        answers.push(
            Answer { name: host.clone(), endpoint: Some(Endpoint::direct(endpoints[i])) },
        );
        i = i + 1;
    }
    assert(views(answers@) =~= wanted);
    let record = LookupRecord {
        signature_fields: SignatureFields::empty(),
        dns: None,
        answers: Some(answers),
        cert: Vec::new(),
    };
    assert(record@.cert =~= Seq::<u8>::empty());
    record
}

/// The records that the configuration gives.
pub fn build_seed_records(seeds: &Vec<SeedRecordConfig>, allowlist: &Vec<String>) -> (r: Result<
    SeedRecords,
    AppError,
>)
    ensures
        configured_seeds(
            seeds@.map_values(|c: SeedRecordConfig| (c.host@, c.endpoints@)),
            views(allowlist@),
        ) == (match r {
            Ok(records) => Ok(records@),
            Err(e) => Err(e@),
        }),
{
    let ghost all = seeds@.map_values(|c: SeedRecordConfig| (c.host@, c.endpoints@));
    let ghost allow = views(allowlist@);
    let mut out = SeedRecords { entries: Vec::new() };
    let mut i: usize = 0;
    assert(out@ =~= Seq::<(Seq<char>, LookupModel)>::empty());
    while i < seeds.len()
        invariant
            i <= seeds@.len(),
            all == seeds@.map_values(|c: SeedRecordConfig| (c.host@, c.endpoints@)),
            allow == views(allowlist@),
            configured_seeds(all.take(i as int), allow) == Ok::<_, AppFault>(out@),
        decreases seeds@.len() - i,
    {
        proof {
            assert(all.take(i + 1).drop_last() =~= all.take(i as int));
            assert(all.take(i + 1).last() == (seeds@[i as int].host@, seeds@[i as int].endpoints@));
        }
        if seeds[i].endpoints.len() > 0 {
            let host = match normalize_host(seeds[i].host.as_str(), allowlist) {
                Ok(host) => host,
                Err(e) => {
                    proof {
                        lemma_configured_seeds_fail_on(all, allow, i + 1);
                    }
                    return Err(e);
                },
            };
            let record = seed_lookup_record(&host, &seeds[i].endpoints);
            let ghost before = out@;
            out.entries.push((host, record));
            assert(out@ =~= before.push((host@, record@)));
        }
        i = i + 1;
    }
    assert(all.take(i as int) =~= all);
    Ok(out)
}

/// A tilde that stands for the home directory is replaced by it, and no other path is changed.
pub proof fn law_the_home_directory_is_put_in(
    path: Seq<char>,
    home: Seq<char>,
    rest: Seq<char>,
)
    ensures
        expanded(path, None) == path,
        expanded(seq!['~'], Some(home)) == home,
        path.len() == 0 || path[0] != '~' ==> expanded(path, Some(home)) == path,
        path.len() > 1 && path[1] != '/' ==> expanded(path, Some(home)) == path,
        rest.len() > 0 && rest[0] == '/' ==> expanded(seq!['~', '/'] + rest, Some(home)) == rest,
        (rest.len() == 0 || rest[0] != '/') && home.len() > 0 && home.last() != '/' ==> expanded(
            seq!['~', '/'] + rest,
            Some(home),
        ) == home + seq!['/'] + rest,
        (rest.len() == 0 || rest[0] != '/') && home.len() > 0 && home.last() == '/' ==> expanded(
            seq!['~', '/'] + rest,
            Some(home),
        ) == home + rest,
{
    reveal_strlit("~");
    reveal_strlit("~/");
    assert("~"@ =~= seq!['~']);
    let below = seq!['~', '/'] + rest;
    assert("~/"@ =~= below.subrange(0, 2));
    assert(below.skip(2) =~= rest);
    if "~/"@.is_prefix_of(path) {
        assert(path.subrange(0, 2)[0] == path[0]);
        assert(path.subrange(0, 2)[1] == path[1]);
    }
}

/// The server that is written to is the one for writing, or else the one for both.
pub proof fn law_the_server_for_writing_is_preferred(config: Config)
    ensures
        config.redis_write_url matches Some(url) ==> config.primary() == Some(url@),
        config.redis_write_url is None ==> (config.redis matches Some(url) ==> config.primary()
            == Some(url@)),
        config.redis_write_url is None && config.redis is None ==> config.primary() is None,
{
}

proof fn lemma_no_rule_for(
    rules: Seq<(Seq<char>, PolicyKind)>,
    allowlist: Seq<Seq<char>>,
    host: Seq<char>,
)
    requires
        forall|j: int|
            0 <= j < rules.len() ==> allowed_host((#[trigger] rules[j]).0, allowlist) != Ok::<
                _,
                AppFault,
            >(host),
    ensures
        forall|k: int|
            0 <= k < configured_rules(rules, allowlist).len() ==> (#[trigger] configured_rules(
                rules,
                allowlist,
            )[k]).0 != host,
    decreases rules.len(),
{
    if rules.len() > 0 {
        let front = rules.drop_last();
        assert forall|j: int| 0 <= j < front.len() implies allowed_host(
            (#[trigger] front[j]).0,
            allowlist,
        ) != Ok::<_, AppFault>(host) by {
            assert(front[j] == rules[j]);
        }
        lemma_no_rule_for(front, allowlist, host);
        assert(allowed_host(rules[rules.len() - 1].0, allowlist) != Ok::<_, AppFault>(host));
        let known = configured_rules(front, allowlist);
        let all = configured_rules(rules, allowlist);
        assert forall|k: int| 0 <= k < all.len() implies (#[trigger] all[k]).0 != host by {
            if k < known.len() {
                assert(all[k] == known[k]);
            }
        }
    }
}

proof fn lemma_first_rule_for(
    rules: Seq<(Seq<char>, PolicyKind)>,
    allowlist: Seq<Seq<char>>,
    host: Seq<char>,
    i: int,
) -> (k: int)
    requires
        0 <= i < rules.len(),
        allowed_host(rules[i].0, allowlist) == Ok::<_, AppFault>(host),
        forall|j: int|
            0 <= j < i ==> allowed_host((#[trigger] rules[j]).0, allowlist) != Ok::<_, AppFault>(
                host,
            ),
    ensures
        0 <= k < configured_rules(rules, allowlist).len(),
        configured_rules(rules, allowlist)[k] == (host, policy_of_kind(rules[i].1)),
        forall|j: int|
            0 <= j < k ==> (#[trigger] configured_rules(rules, allowlist)[j]).0 != host,
    decreases rules.len(),
{
    let front = rules.drop_last();
    let known = configured_rules(front, allowlist);
    let all = configured_rules(rules, allowlist);
    assert forall|j: int| 0 <= j < i && j < front.len() implies allowed_host(
        (#[trigger] front[j]).0,
        allowlist,
    ) != Ok::<_, AppFault>(host) by {
        assert(front[j] == rules[j]);
    }
    if i < front.len() {
        assert(front[i] == rules[i]);
        let k = lemma_first_rule_for(front, allowlist, host, i);
        assert(all[k] == known[k]);
        assert forall|j: int| 0 <= j < k implies (#[trigger] all[j]).0 != host by {
            assert(all[j] == known[j]);
        }
        k
    } else {
        lemma_no_rule_for(front, allowlist, host);
        if known.len() > 0 {
            assert(known[known.len() - 1].0 != host);
        }
        assert(all == known.push((host, policy_of_kind(rules[i].1))));
        assert forall|j: int| 0 <= j < known.len() implies (#[trigger] all[j]).0 != host by {
            assert(all[j] == known[j]);
        }
        known.len() as int
    }
}

/// The policy of a host is that of the first configured rule for it. A host without a rule has
/// the standard policy.
pub proof fn law_the_first_configured_rule_decides(
    rules: Seq<(Seq<char>, PolicyKind)>,
    allowlist: Seq<Seq<char>>,
    policies: Seq<(PolicyRule, DomainPolicy)>,
    host: Seq<char>,
    i: int,
)
    requires
        forall|k: int| 0 <= k < policies.len() ==> (#[trigger] policies[k]).0 is Exact,
        exact_rules(policies) == configured_rules(rules, allowlist),
    ensures
        (forall|j: int|
            0 <= j < rules.len() ==> allowed_host((#[trigger] rules[j]).0, allowlist) != Ok::<
                _,
                AppFault,
            >(host)) ==> policy_of(policies, host) is Standard,
        0 <= i < rules.len() && allowed_host(rules[i].0, allowlist) == Ok::<_, AppFault>(host) && (
        forall|j: int|
            0 <= j < i ==> allowed_host((#[trigger] rules[j]).0, allowlist) != Ok::<_, AppFault>(
                host,
            )) ==> (policy_of(policies, host) is OpenMulti <==> rules[i].1 is OpenMulti),
{
    let exact = exact_rules(policies);
    assert forall|k: int| 0 <= k < policies.len() implies ((#[trigger] policies[k]).0.covers(host)
        <==> exact[k].0 == host) by {
        assert(policies[k].0 is Exact);
    }
    if forall|j: int|
        0 <= j < rules.len() ==> allowed_host((#[trigger] rules[j]).0, allowlist) != Ok::<
            _,
            AppFault,
        >(host) {
        lemma_no_rule_for(rules, allowlist, host);
        assert forall|k: int| 0 <= k < policies.len() implies !(#[trigger] policies[k]).0.covers(
            host,
        ) by {
            assert(exact[k].0 != host);
        }
        law_the_first_rule_decides(policies, host, 0);
    }
    if 0 <= i < rules.len() && allowed_host(rules[i].0, allowlist) == Ok::<_, AppFault>(host) && (
    forall|j: int|
        0 <= j < i ==> allowed_host((#[trigger] rules[j]).0, allowlist) != Ok::<_, AppFault>(
            host,
        )) {
        let k = lemma_first_rule_for(rules, allowlist, host, i);
        assert(exact[k].0 == host);
        assert(exact[k].1 == policies[k].1);
        assert forall|j: int| 0 <= j < k implies !(#[trigger] policies[j]).0.covers(host) by {
            assert(exact[j].0 != host);
        }
        law_the_first_rule_decides(policies, host, k);
    }
}

/// A configured record announces its endpoints directly, under the normal form of its host,
/// unsigned and without a certificate. One without endpoints is left out, and one for a host
/// that is not allowed is refused.
pub proof fn law_configured_records_announce_their_endpoints(
    host: Seq<char>,
    endpoints: Seq<SocketAddress>,
    allowlist: Seq<Seq<char>>,
    i: int,
)
    ensures
        endpoints.len() == 0 ==> configured_seeds(seq![(host, endpoints)], allowlist) == Ok::<
            _,
            AppFault,
        >(Seq::<(Seq<char>, LookupModel)>::empty()),
        endpoints.len() > 0 ==> match (
            allowed_host(host, allowlist),
            configured_seeds(seq![(host, endpoints)], allowlist),
        ) {
            (Ok(name), Ok(made)) => {
                let record = made[0].1;
                &&& made.len() == 1
                &&& made[0].0 == name
                &&& record.signature_fields.content_digest.len() == 0
                &&& record.signature_fields.signature_input.len() == 0
                &&& record.signature_fields.signature.len() == 0
                &&& record.cert.len() == 0
                &&& record.dns is None
                &&& record.answers is Some
                &&& record.answers->0.len() == endpoints.len()
                &&& 0 <= i < endpoints.len() ==> {
                    let answer = record.answers->0[i];
                    &&& answer.name == name
                    &&& answer.endpoint is Some
                    &&& answer.endpoint->0.address() == EndpointAddr::Direct { addr: endpoints[i] }
                    &&& !answer.endpoint->0.main
                    &&& answer.endpoint->0.sequence is None
                    &&& !answer.endpoint->0.signed
                    &&& answer.endpoint->0.load is None
                }
            },
            (Err(fault), Err(refused)) => fault == refused,
            _ => false,
        },
{
    reveal_with_fuel(configured_seeds, 2);
    let one = seq![(host, endpoints)];
    assert(one.drop_last() =~= Seq::<(Seq<char>, Seq<SocketAddress>)>::empty());
    assert(one.last() == (host, endpoints));
    let none = Seq::<(Seq<char>, LookupModel)>::empty();
    assert(configured_seeds(Seq::<(Seq<char>, Seq<SocketAddress>)>::empty(), allowlist) == Ok::<
        _,
        AppFault,
    >(none));
    if endpoints.len() > 0 {
        if let Ok(name) = allowed_host(host, allowlist) {
            assert(none.push((name, seed_record(name, endpoints)))[0] == (
                name,
                seed_record(name, endpoints),
            ));
        }
    }
}

/// Configured records follow each other in their order, and the first one that is refused
/// refuses them all.
pub proof fn law_configured_records_follow_each_other(
    seeds: Seq<(Seq<char>, Seq<SocketAddress>)>,
    more: Seq<(Seq<char>, Seq<SocketAddress>)>,
    allowlist: Seq<Seq<char>>,
)
    ensures
        match (configured_seeds(seeds, allowlist), configured_seeds(more, allowlist)) {
            (Ok(a), Ok(b)) => configured_seeds(seeds + more, allowlist) == Ok::<_, AppFault>(a + b),
            (Err(fault), _) => configured_seeds(seeds + more, allowlist) == Err::<
                Seq<(Seq<char>, LookupModel)>,
                _,
            >(fault),
            (Ok(_), Err(fault)) => configured_seeds(seeds + more, allowlist) == Err::<
                Seq<(Seq<char>, LookupModel)>,
                _,
            >(fault),
        },
    decreases more.len(),
{
    if more.len() > 0 {
        law_configured_records_follow_each_other(seeds, more.drop_last(), allowlist);
        assert((seeds + more).drop_last() =~= seeds + more.drop_last());
        assert((seeds + more).last() == more.last());
        if let (Ok(a), Ok(b)) = (
            configured_seeds(seeds, allowlist),
            configured_seeds(more, allowlist),
        ) {
            let front = configured_seeds(more.drop_last(), allowlist)->Ok_0;
            if more.last().1.len() > 0 {
                assert(b.drop_last() =~= front);
                assert((a + front).push(b.last()) =~= a + b);
            }
        }
    } else {
        assert(seeds + more =~= seeds);
        if let Ok(a) = configured_seeds(seeds, allowlist) {
            assert(a + Seq::<(Seq<char>, LookupModel)>::empty() =~= a);
        }
    }
}

/// A path that is not given stays so.
pub proof fn law_missing_paths_stay_missing(path: String, home: Option<Seq<char>>)
    ensures
        expanded_option(None, home) is None,
        expanded_option(Some(path), home) == Some(expanded(path@, home)),
{
}

} // verus!
