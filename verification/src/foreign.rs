//! The calls into other crates, and into parts of std that have no
//! specification. What each contract claims of its function is believed.
use vstd::prelude::*;
use vstd::utf8::*;

use crate::h3::cache::{fresh_entries, CachedRecord};
use crate::protocol::certificate::CertificateChainKind;
use crate::protocol::sigin::{alg_name, SignatureScheme};
use crate::protocol::wire::{be_bytes4, be_bytes8, views};
use crate::server::storage::HostRecords;

verus! {

/// The number of bytes from which on SHA-256 has no room for the bit length.
pub open spec fn digestible(data: Seq<u8>) -> bool {
    data.len() < 0x2000_0000_0000_0000
}

/// The SHA-256 digest of a byte string.
pub uninterp spec fn sha256(data: Seq<u8>) -> Seq<u8>;

/// Trusts `ring::digest::digest` with `SHA256`: the result depends on the data
/// alone and has 32 bytes. It panics where the bit length does not fit in 64
/// bits.
#[verifier::external_body]
pub(crate) fn sha256_digest(data: &[u8]) -> (r: Vec<u8>)
    requires
        digestible(data@),
    ensures
        r@ == sha256(data@),
        r@.len() == 32,
{
    ring::digest::digest(&ring::digest::SHA256, data).as_ref().to_vec()
}

/// The base64 notation of a byte string: standard alphabet, with padding.
pub uninterp spec fn base64_encode(data: Seq<u8>) -> Seq<char>;

/// The byte string that a base64 notation stands for, if it is one.
pub uninterp spec fn base64_decode(text: Seq<char>) -> Option<Seq<u8>>;

/// Trusts `encode` of the engine `base64::engine::general_purpose::STANDARD`:
/// the result depends on the data alone, and decoding it gives the data back.
/// It panics where the notation is too long for a buffer.
#[verifier::external_body]
pub(crate) fn base64_text(data: &[u8]) -> (r: String)
    requires
        data@.len() <= isize::MAX / 2,
    ensures
        r@ == base64_encode(data@),
        base64_decode(r@) == Some(data@),
{
    base64::Engine::encode(&base64::engine::general_purpose::STANDARD, data)
}

/// Trusts `decode` of the engine `base64::engine::general_purpose::STANDARD`:
/// the result depends on the text alone.
#[verifier::external_body]
pub(crate) fn base64_bytes(text: &str) -> (r: Option<Vec<u8>>)
    ensures
        r is Some <==> base64_decode(text@) is Some,
        r is Some ==> base64_decode(text@) == Some((r->0)@),
{
    base64::Engine::decode(&base64::engine::general_purpose::STANDARD, text).ok()
}

/// Trusts `std::str::from_utf8`: it accepts exactly the valid UTF-8, and the
/// text is what the bytes encode.
#[verifier::external_body]
pub(crate) fn utf8_text<'a>(bytes: &'a [u8]) -> (r: Option<&'a str>)
    ensures
        r is Some <==> valid_utf8(bytes@),
        r is Some ==> (r->0)@ == decode_utf8(bytes@),
{
    std::str::from_utf8(bytes).ok()
}

/// Trusts `bytes::BufMut::put_u32` on a `Vec<u8>`: four bytes are appended, the
/// most significant first. It panics where the buffer cannot grow.
#[verifier::external_body]
pub(crate) fn put_u32(buf: &mut Vec<u8>, value: u32)
    requires
        old(buf)@.len() + 4 <= isize::MAX,
    ensures
        final(buf)@ == old(buf)@ + be_bytes4(value),
{
    bytes::BufMut::put_u32(buf, value)
}

/// Trusts `bytes::BufMut::put_slice` on a `Vec<u8>`: the bytes are appended. It
/// panics where the buffer cannot grow.
#[verifier::external_body]
pub(crate) fn put_slice(buf: &mut Vec<u8>, value: &[u8])
    requires
        old(buf)@.len() + value@.len() <= isize::MAX,
    ensures
        final(buf)@ == old(buf)@ + value@,
{
    bytes::BufMut::put_slice(buf, value)
}

/// Trusts `dhttp_identity::certificate::CertificateSequence::try_from` on `u64`:
/// it accepts exactly the numbers that fit in 31 bits and keeps them.
#[verifier::external_body]
pub(crate) fn certificate_sequence(value: u64) -> (r: Option<u32>)
    ensures
        r is Some <==> value <= 0x7fff_ffff,
        r is Some ==> r->0 == value,
{
    dhttp_identity::certificate::CertificateSequence::try_from(value).ok().map(|s| s.get())
}

/// What a subject public key info holds: the object identifiers of the algorithm
/// and of its parameters, as DER encodes them, and the bits of the key.
pub struct SpkiParts {
    pub algorithm: Vec<u8>,
    pub curve: Option<Vec<u8>>,
    pub key: Vec<u8>,
}

/// The parts of a DER encoded subject public key info, where it can be read: the
/// identifier of the algorithm, that of its parameters where they are one, and the
/// bits of the key.
pub uninterp spec fn spki_parts(der: Seq<u8>) -> Option<
    (Seq<u8>, Option<Seq<u8>>, Seq<u8>),
>;

impl SpkiParts {
    pub open spec fn parts(self) -> (Seq<u8>, Option<Seq<u8>>, Seq<u8>) {
        (
            self.algorithm@,
            match self.curve {
                Some(c) => Some(c@),
                None => None,
            },
            self.key@,
        )
    }

    /// Trusts `x509_parser::x509::SubjectPublicKeyInfo::from_der`: what it reads
    /// depends on the bytes alone.
    #[verifier::external_body]
    pub(crate) fn read(der: &[u8]) -> (r: Option<SpkiParts>)
        ensures
            r is Some <==> spki_parts(der@) is Some,
            r is Some ==> spki_parts(der@) == Some((r->0).parts()),
    {
        let (_, spki) = x509_parser::prelude::FromDer::from_der(der).ok()?;
        let spki: x509_parser::x509::SubjectPublicKeyInfo<'_> = spki;
        let curve = spki.algorithm.parameters.as_ref().and_then(|p| p.as_oid().ok());
        Some(SpkiParts {
            algorithm: spki.algorithm.algorithm.as_bytes().to_vec(),
            curve: curve.map(|oid| oid.as_bytes().to_vec()),
            key: spki.subject_public_key.data.to_vec(),
        })
    }
}

/// Whether a signature over the data is good under the named algorithm and key.
pub uninterp spec fn signature_accepted(
    alg: Seq<char>,
    key: Seq<u8>,
    data: Seq<u8>,
    signature: Seq<u8>,
) -> bool;

/// Trusts `ring::signature::UnparsedPublicKey::verify`: whether it accepts depends
/// on the algorithm, the key, the data and the signature alone. It panics on data
/// that is too long to be digested.
#[verifier::external_body]
pub(crate) fn verify_with_scheme(
    scheme: SignatureScheme,
    key: &[u8],
    data: &[u8],
    signature: &[u8],
) -> (r: bool)
    requires
        !(scheme is Unknown),
        digestible(data@),
    ensures
        r == signature_accepted(alg_name(scheme)->0, key@, data@, signature@),
{
    let algorithm: &'static dyn ring::signature::VerificationAlgorithm = match scheme {
        SignatureScheme::ED25519 => &ring::signature::ED25519,
        SignatureScheme::ECDSA_NISTP256_SHA256 => &ring::signature::ECDSA_P256_SHA256_ASN1,
        SignatureScheme::ECDSA_NISTP384_SHA384 => &ring::signature::ECDSA_P384_SHA384_ASN1,
        SignatureScheme::RSA_PSS_SHA256 => &ring::signature::RSA_PSS_2048_8192_SHA256,
        SignatureScheme::RSA_PSS_SHA384 => &ring::signature::RSA_PSS_2048_8192_SHA384,
        SignatureScheme::RSA_PSS_SHA512 => &ring::signature::RSA_PSS_2048_8192_SHA512,
        SignatureScheme::RSA_PKCS1_SHA256 => &ring::signature::RSA_PKCS1_2048_8192_SHA256,
        SignatureScheme::RSA_PKCS1_SHA384 => &ring::signature::RSA_PKCS1_2048_8192_SHA384,
        SignatureScheme::RSA_PKCS1_SHA512 => &ring::signature::RSA_PKCS1_2048_8192_SHA512,
        SignatureScheme::Unknown(_) => return false,
    };
    ring::signature::UnparsedPublicKey::new(algorithm, key).verify(data, signature).is_ok()
}

/// The DER encoded subject public key info of a DER encoded certificate, or what
/// is wrong with the certificate.
pub uninterp spec fn certificate_spki(cert: Seq<u8>) -> Result<Seq<u8>, Seq<char>>;

/// Trusts `x509_parser::parse_x509_certificate`: what it reads, and the text of its
/// error, depend on the bytes alone.
#[verifier::external_body]
pub(crate) fn read_certificate_spki(cert: &[u8]) -> (r: Result<Vec<u8>, String>)
    ensures
        match r {
            Ok(spki) => certificate_spki(cert@) == Ok::<_, Seq<char>>(spki@),
            Err(details) => certificate_spki(cert@) == Err::<Seq<u8>, _>(details@),
        },
{
    match x509_parser::parse_x509_certificate(cert) {
        Ok((_, cert)) => Ok(cert.tbs_certificate.subject_pki.raw.to_vec()),
        Err(error) => Err(error.to_string()),
    }
}

/// The certificates of a PEM file, in order, or what is wrong with the file.
pub uninterp spec fn pem_certificates(pem: Seq<u8>) -> Result<Seq<Seq<u8>>, Seq<char>>;

/// Trusts `rustls_pemfile::certs` on a file in memory: the certificates that it reads, and
/// the text of its first error, depend on the bytes alone.
#[verifier::external_body]
pub(crate) fn read_pem_certificates(pem: &[u8]) -> (r: Result<Vec<Vec<u8>>, String>)
    ensures
        match r {
            Ok(certs) => pem_certificates(pem@) == Ok::<_, Seq<char>>(views(certs@)),
            Err(details) => pem_certificates(pem@) == Err::<Seq<Seq<u8>>, _>(details@),
        },
{
    let mut reader = pem;
    match rustls_pemfile::certs(&mut reader).collect::<Result<Vec<_>, _>>() {
        Ok(certs) => Ok(certs.into_iter().map(|cert| cert.to_vec()).collect()),
        Err(error) => Err(error.to_string()),
    }
}

/// The ASCII form of a domain name, where it has one.
pub uninterp spec fn idna_ascii(domain: Seq<char>) -> Option<Seq<char>>;

/// Trusts `idna::domain_to_ascii`: the result depends on the domain alone.
#[verifier::external_body]
pub(crate) fn domain_to_ascii(domain: &str) -> (r: Option<String>)
    ensures
        r is Some <==> idna_ascii(domain@) is Some,
        r is Some ==> idna_ascii(domain@) == Some((r->0)@),
{
    idna::domain_to_ascii(domain).ok()
}

/// The names and values of a form encoded query, in order.
pub uninterp spec fn form_pairs(query: Seq<char>) -> Seq<(Seq<char>, Seq<char>)>;

/// Trusts `url::form_urlencoded::parse`: the pairs depend on the query alone.
#[verifier::external_body]
pub(crate) fn parse_form(query: &str) -> (r: Vec<(String, String)>)
    ensures
        r@.map_values(|p: (String, String)| (p.0@, p.1@)) == form_pairs(query@),
{
    url::form_urlencoded::parse(query.as_bytes()).into_owned().collect()
}

/// What the logic reads of a URI.
#[derive(Debug, PartialEq, Eq)]
pub struct UriParts {
    pub scheme: Option<String>,
    /// The user info, host and port as they are written.
    pub authority: Option<String>,
    pub port: Option<u16>,
    pub query: Option<String>,
}

/// The contents of [`UriParts`].
pub struct UriModel {
    pub scheme: Option<Seq<char>>,
    pub authority: Option<Seq<char>>,
    pub port: Option<u16>,
    pub query: Option<Seq<char>>,
}

pub open spec fn optional_text(text: Option<String>) -> Option<Seq<char>> {
    match text {
        Some(text) => Some(text@),
        None => None,
    }
}

pub open spec fn optional_texts(texts: Seq<Option<String>>) -> Seq<Option<Seq<char>>> {
    texts.map_values(|text: Option<String>| optional_text(text))
}

impl View for UriParts {
    type V = UriModel;

    open spec fn view(&self) -> UriModel {
        UriModel {
            scheme: optional_text(self.scheme),
            authority: optional_text(self.authority),
            port: self.port,
            query: optional_text(self.query),
        }
    }
}

/// The parts of a URI, where the text is one.
pub uninterp spec fn uri_parts(text: Seq<char>) -> Option<UriModel>;

/// Trusts the parser of `http::Uri` and its accessors: what they read depends on
/// the text alone.
#[verifier::external_body]
fn read_uri(text: &str) -> (r: Option<UriParts>)
    ensures
        r is Some <==> uri_parts(text@) is Some,
        r is Some ==> uri_parts(text@) == Some((r->0)@),
{
    let uri: http::Uri = text.parse().ok()?;
    Some(UriParts {
        scheme: uri.scheme_str().map(|s| s.to_owned()),
        authority: uri.authority().map(|a| a.as_str().to_owned()),
        port: uri.port_u16(),
        query: uri.query().map(|q| q.to_owned()),
    })
}

impl UriParts {
    /// The parts of a URI, where the text is one.
    pub fn parse(text: &str) -> (r: Option<UriParts>)
        ensures
            r is Some <==> uri_parts(text@) is Some,
            r is Some ==> uri_parts(text@) == Some((r->0)@),
    {
        read_uri(text)
    }
}

/// The subject alternative names of a certificate, in order: the text of a DNS name, and
/// nothing for a name of another kind. There are none where the certificate or its names
/// cannot be read, or where it has none.
pub uninterp spec fn certificate_alt_names(cert: Seq<u8>) -> Option<Seq<Option<Seq<char>>>>;

/// Trusts `x509_parser::parse_x509_certificate` and its reader of subject
/// alternative names: the names depend on the bytes alone.
#[verifier::external_body]
pub(crate) fn read_alt_names(cert: &[u8]) -> (r: Option<Vec<Option<String>>>)
    ensures
        r is Some <==> certificate_alt_names(cert@) is Some,
        r is Some ==> certificate_alt_names(cert@) == Some(optional_texts((r->0)@)),
{
    let (_, cert) = x509_parser::parse_x509_certificate(cert).ok()?;
    let san = cert.subject_alternative_name().ok()??;
    let names = san.value.general_names.iter().map(|name| match name {
        x509_parser::extensions::GeneralName::DNSName(dns) => Some(dns.to_string()),
        _ => None,
    });
    Some(names.collect())
}

/// Trusts `bytes::BufMut::put_u64` on a `Vec<u8>`: eight bytes are appended, the
/// most significant first. It panics where the buffer cannot grow.
#[verifier::external_body]
pub(crate) fn put_u64(buf: &mut Vec<u8>, value: u64)
    requires
        old(buf)@.len() + 8 <= isize::MAX,
    ensures
        final(buf)@ == old(buf)@ + be_bytes8(value),
{
    bytes::BufMut::put_u64(buf, value)
}

/// A point in time of the system clock.
#[verifier::external_type_specification]
#[verifier::external_body]
pub struct ExSystemTime(std::time::SystemTime);

/// Trusts `std::time::SystemTime::now`. Nothing is claimed of the reading.
#[verifier::external_body]
pub(crate) fn system_time_now() -> std::time::SystemTime {
    std::time::SystemTime::now()
}

/// Trusts `std::time::SystemTime::duration_since` from the Unix epoch. Nothing is
/// claimed of the duration, and there is none where the clock is before the epoch.
#[verifier::external_body]
pub(crate) fn since_epoch(time: &std::time::SystemTime) -> (r: Option<std::time::Duration>) {
    time.duration_since(std::time::UNIX_EPOCH).ok()
}

/// Trusts `std::time::Duration::as_secs`. Nothing is claimed of the number.
#[verifier::external_body]
pub(crate) fn whole_seconds(duration: &std::time::Duration) -> (r: u64) {
    duration.as_secs()
}

/// A concurrent map of the `dashmap` crate.
#[verifier::external_type_specification]
#[verifier::external_body]
#[verifier::reject_recursive_types(K)]
#[verifier::reject_recursive_types(V)]
#[verifier::reject_recursive_types(S)]
pub struct ExDashMap<K, V, S>(dashmap::DashMap<K, V, S>);

/// A concurrent set of the `dashmap` crate.
#[verifier::external_type_specification]
#[verifier::external_body]
#[verifier::reject_recursive_types(K)]
#[verifier::reject_recursive_types(S)]
pub struct ExDashSet<K, S>(dashmap::DashSet<K, S>);

/// What a map from hosts to their records holds.
pub uninterp spec fn host_entries(map: dashmap::DashMap<String, HostRecords>) -> Map<
    Seq<char>,
    HostRecords,
>;

/// Trusts `dashmap::DashMap::new`: the map is empty.
#[verifier::external_body]
pub(crate) fn new_host_map() -> (r: dashmap::DashMap<String, HostRecords>)
    ensures
        host_entries(r).dom() == Set::<Seq<char>>::empty(),
{
    dashmap::DashMap::new()
}

/// Trusts `dashmap::DashMap::remove`: the entry of the key is taken out and handed
/// back, where there is one.
#[verifier::external_body]
pub(crate) fn take_host(map: &mut dashmap::DashMap<String, HostRecords>, host: &str) -> (r: Option<
    HostRecords,
>)
    ensures
        host_entries(*final(map)) == host_entries(*old(map)).remove(host@),
        r is Some <==> host_entries(*old(map)).dom().contains(host@),
        r is Some ==> r->0 == host_entries(*old(map))[host@],
{
    map.remove(host).map(|entry| entry.1)
}

/// Trusts `dashmap::DashMap::insert`: the entry of the key is the value.
#[verifier::external_body]
pub(crate) fn put_host(
    map: &mut dashmap::DashMap<String, HostRecords>,
    host: String,
    records: HostRecords,
)
    ensures
        host_entries(*final(map)) == host_entries(*old(map)).insert(host@, records),
{
    map.insert(host, records);
}

/// What a set of hosts holds.
pub uninterp spec fn host_members(set: dashmap::DashSet<String>) -> Set<Seq<char>>;

/// Trusts `dashmap::DashSet::new`: the set is empty.
#[verifier::external_body]
pub(crate) fn new_host_set() -> (r: dashmap::DashSet<String>)
    ensures
        host_members(r) == Set::<Seq<char>>::empty(),
{
    dashmap::DashSet::new()
}

/// Trusts `dashmap::DashSet::insert`: the set holds the item as well.
#[verifier::external_body]
pub(crate) fn add_member(set: &mut dashmap::DashSet<String>, host: String)
    ensures
        host_members(*final(set)) == host_members(*old(set)).insert(host@),
{
    set.insert(host);
}

/// Trusts `dashmap::DashSet::remove`: the set does not hold the item any more.
#[verifier::external_body]
pub(crate) fn remove_member(set: &mut dashmap::DashSet<String>, host: &str)
    ensures
        host_members(*final(set)) == host_members(*old(set)).remove(host@),
{
    set.remove(host);
}

/// Trusts `dashmap::DashSet::contains`: whether the set holds the item.
#[verifier::external_body]
pub(crate) fn is_member(set: &dashmap::DashSet<String>, host: &str) -> (r: bool)
    ensures
        r == host_members(*set).contains(host@),
{
    set.contains(host)
}

/// A byte string as text, with a replacement character for each part that is not UTF-8.
pub uninterp spec fn lossy_text(bytes: Seq<u8>) -> Seq<char>;

/// Trusts `String::from_utf8_lossy`: the text depends on the bytes alone, and is what
/// they encode where they are UTF-8. A replacement character takes three bytes, and it
/// panics where the text is too long for a buffer.
#[verifier::external_body]
pub(crate) fn utf8_lossy(bytes: &[u8]) -> (r: String)
    requires
        bytes@.len() <= isize::MAX / 3,
    ensures
        r@ == lossy_text(bytes@),
        valid_utf8(bytes@) ==> r@ == decode_utf8(bytes@),
{
    String::from_utf8_lossy(bytes).into_owned()
}

/// What a map from lookups to their results holds.
pub uninterp spec fn cache_entries(map: dashmap::DashMap<(String, u8), CachedRecord>) -> Map<
    (Seq<char>, u8),
    CachedRecord,
>;

/// Trusts `dashmap::DashMap::new`: the map is empty.
#[verifier::external_body]
pub(crate) fn new_cache_map() -> (r: dashmap::DashMap<(String, u8), CachedRecord>)
    ensures
        cache_entries(r).dom() == Set::<(Seq<char>, u8)>::empty(),
{
    dashmap::DashMap::new()
}

/// Trusts `dashmap::DashMap::insert`: the entry of the key is the value.
#[verifier::external_body]
pub(crate) fn put_cached(
    map: &mut dashmap::DashMap<(String, u8), CachedRecord>,
    key: (String, u8),
    record: CachedRecord,
)
    ensures
        cache_entries(*final(map)) == cache_entries(*old(map)).insert((key.0@, key.1), record),
{
    map.insert(key, record);
}

/// Trusts `dashmap::DashMap::remove`: there is no entry of the key any more.
#[verifier::external_body]
pub(crate) fn drop_cached(
    map: &mut dashmap::DashMap<(String, u8), CachedRecord>,
    key: &(String, u8),
)
    ensures
        cache_entries(*final(map)) == cache_entries(*old(map)).remove((key.0@, key.1)),
{
    map.remove(key);
}

/// Trusts `dashmap::DashMap::get`: a copy of the entry of the key, where there is one.
#[verifier::external_body]
pub(crate) fn get_cached(
    map: &dashmap::DashMap<(String, u8), CachedRecord>,
    key: &(String, u8),
) -> (r: Option<CachedRecord>)
    ensures
        r is Some <==> cache_entries(*map).dom().contains((key.0@, key.1)),
        r is Some ==> (r->0)@ == cache_entries(*map)[(key.0@, key.1)]@,
{
    map.get(key).map(|entry| entry.value().clone())
}

/// Trusts `dashmap::DashMap::retain`: the entries that are fresh stay as they are, and
/// the others are taken out.
#[verifier::external_body]
pub(crate) fn keep_fresh(map: &mut dashmap::DashMap<(String, u8), CachedRecord>, now: u128)
    ensures
        cache_entries(*final(map)) == fresh_entries(cache_entries(*old(map)), now),
{
    map.retain(|_, record| record.is_fresh(now));
}

/// What the logic reads of a URL.
#[derive(Debug, PartialEq, Eq)]
pub struct UrlParts {
    pub scheme: String,
    pub host: Option<String>,
    /// The URL as it is written in normal form.
    pub text: String,
}

/// The contents of [`UrlParts`].
pub struct UrlModel {
    pub scheme: Seq<char>,
    pub host: Option<Seq<char>>,
    pub text: Seq<char>,
}

impl View for UrlParts {
    type V = UrlModel;

    open spec fn view(&self) -> UrlModel {
        UrlModel {
            scheme: self.scheme@,
            host: optional_text(self.host),
            text: self.text@,
        }
    }
}

/// The parts of a URL, where the text is one.
pub uninterp spec fn url_parts(text: Seq<char>) -> Option<UrlModel>;

/// Trusts `url::Url::parse` and the accessors of a URL: what they read depends on
/// the text alone.
#[verifier::external_body]
fn read_url(text: &str) -> (r: Option<UrlParts>)
    ensures
        r is Some <==> url_parts(text@) is Some,
        r is Some ==> url_parts(text@) == Some((r->0)@),
{
    let url = url::Url::parse(text).ok()?;
    Some(UrlParts {
        scheme: url.scheme().to_owned(),
        host: url.host_str().map(|h| h.to_owned()),
        text: url.as_str().to_owned(),
    })
}

impl UrlParts {
    /// The parts of a URL, where the text is one.
    pub fn parse(text: &str) -> (r: Option<UrlParts>)
        ensures
            r is Some <==> url_parts(text@) is Some,
            r is Some ==> url_parts(text@) == Some((r->0)@),
    {
        read_url(text)
    }
}

/// The ASCII serialization of the origin of a URL, where the text is one.
pub uninterp spec fn url_origin(text: Seq<char>) -> Option<Seq<char>>;

/// Trusts `url::Url::origin` and its `ascii_serialization`: the result depends on the text
/// alone, and is there for every URL. The origin of a URL without a host may be that of a
/// URL inside of it, and so on, to any depth.
#[verifier::external_body]
pub(crate) fn read_origin(text: &str) -> (r: Option<String>)
    requires
        url_parts(text@) is Some ==> url_parts(text@)->0.host is Some,
    ensures
        optional_text(r) == url_origin(text@),
        r is Some <==> url_parts(text@) is Some,
{
    Some(url::Url::parse(text).ok()?.origin().ascii_serialization())
}

/// Whether a URL in normal form has room for a query of up to that many bytes. A URL keeps
/// in 32 bits where its query and its fragment start. A query that is there starts where
/// it did; only a fragment comes behind it.
pub open spec fn has_room(url: Seq<char>, more: nat) -> bool {
    &&& url.len() + more <= isize::MAX
    &&& if url.contains('#') {
        url.len() + more <= u32::MAX
    } else {
        url.contains('?') || url.len() <= u32::MAX
    }
}

/// Whether a text, where it is a URL, has room for such a query.
pub open spec fn url_has_room(text: Seq<char>, more: nat) -> bool {
    url_parts(text) matches Some(parts) ==> has_room(parts.text, more)
}

/// How many bytes a pair takes in a query at most: a character takes up to four bytes, each
/// of which may be written as three, and there are signs around the name and the value.
pub open spec fn pair_bytes(name: Seq<char>, value: Seq<char>) -> nat {
    12 * (name.len() + value.len()) + 3
}

/// How many bytes a query takes at most, with the sign before it.
pub open spec fn query_bytes(query: Seq<char>) -> nat {
    12 * query.len() + 1
}

/// A reference resolved against a base URL, where both can be read.
pub uninterp spec fn url_joined(base: Seq<char>, reference: Seq<char>) -> Option<Seq<char>>;

/// Trusts `url::Url::join`: the result depends on the base and the reference alone.
#[verifier::external_body]
pub(crate) fn join_url(base: &str, reference: &str) -> (r: Option<String>)
    ensures
        optional_text(r) == url_joined(base@, reference@),
{
    Some(url::Url::parse(base).ok()?.join(reference).ok()?.into())
}

/// A URL with one more pair at the end of its query, where the text is a URL.
pub uninterp spec fn url_with_pair(
    url: Seq<char>,
    name: Seq<char>,
    value: Seq<char>,
) -> Option<Seq<char>>;

/// Trusts `append_pair` of `url::Url::query_pairs_mut`: the result depends on the
/// URL and the pair alone. It panics where the query or the fragment starts at a position
/// that does not fit in 32 bits.
#[verifier::external_body]
pub(crate) fn append_url_pair(url: &str, name: &str, value: &str) -> (r: Option<String>)
    requires
        url_has_room(url@, pair_bytes(name@, value@)),
    ensures
        optional_text(r) == url_with_pair(url@, name@, value@),
{
    let mut url = url::Url::parse(url).ok()?;
    url.query_pairs_mut().append_pair(name, value);
    Some(url.into())
}

/// A URL with another query, where the text is a URL.
pub uninterp spec fn url_with_query(url: Seq<char>, query: Seq<char>) -> Option<Seq<char>>;

/// Trusts `url::Url::set_query`: the result depends on the URL and the query alone. It
/// panics where the query or the fragment starts at a position that does not fit in 32
/// bits.
#[verifier::external_body]
pub(crate) fn set_url_query(url: &str, query: &str) -> (r: Option<String>)
    requires
        url_has_room(url@, query_bytes(query@)),
    ensures
        optional_text(r) == url_with_query(url@, query@),
{
    let mut url = url::Url::parse(url).ok()?;
    url.set_query(Some(query));
    Some(url.into())
}

/// Whether a text is a DNS name: labels of letters, digits, hyphens and underscores,
/// the last of which is no number.
pub uninterp spec fn dns_name(text: Seq<char>) -> bool;

/// Trusts `rustls::pki_types::DnsName::try_from`: whether it accepts depends on the
/// text alone.
#[verifier::external_body]
pub(crate) fn is_dns_name(text: &str) -> (r: bool)
    ensures
        r == dns_name(text@),
{
    rustls::pki_types::DnsName::try_from(text).is_ok()
}

/// The sequence and the kind of the certificate chain that a leaf certificate names
/// in its subject key identifier, where it does.
pub uninterp spec fn certificate_chain(cert: Seq<u8>) -> Option<(u32, CertificateChainKind)>;

/// Trusts `dhttp_identity::identity::extract_dhttp_subject_key_identifier`: what it
/// reads depends on the certificate alone, and the sequence fits in 31 bits.
#[verifier::external_body]
pub(crate) fn read_certificate_chain(cert: &[u8]) -> (r: Option<(u32, CertificateChainKind)>)
    ensures
        r == certificate_chain(cert@),
        r is Some ==> (r->0).0 <= 0x7fff_ffff,
{
    let chain = [rustls::pki_types::CertificateDer::from(cert)];
    let id = dhttp_identity::identity::extract_dhttp_subject_key_identifier(&chain).ok()?;
    let kind = match id.chain().usage() {
        dhttp_identity::certificate::CertificateUsage::ClientAndServer =>
            CertificateChainKind::Primary,
        dhttp_identity::certificate::CertificateUsage::ClientOnly =>
            CertificateChainKind::Secondary,
    };
    Some((id.chain().sequence().get(), kind))
}

/// Texts that may be missing are told as they are, and so are the parts of addresses.
pub proof fn law_parts_of_addresses_are_told_as_they_are(text: String, uri: UriParts, url: UrlParts)
    ensures
        optional_text(Some(text)) == Some(text@),
        optional_text(None) is None,
        uri@.port == uri.port,
        uri.query matches Some(query) ==> uri@.query == Some(query@),
        uri.scheme matches Some(scheme) ==> uri@.scheme == Some(scheme@),
        uri.authority matches Some(authority) ==> uri@.authority == Some(authority@),
        url@.scheme == url.scheme@,
        url.host matches Some(host) ==> url@.host == Some(host@),
        url@.text == url.text@,
{
}

} // verus!
