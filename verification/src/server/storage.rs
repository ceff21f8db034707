//! The records that publishers have announced.
use vstd::prelude::*;

use crate::foreign::{
    add_member, digestible, host_entries, host_members, is_member, new_host_map, new_host_set,
    put_host, put_slice, put_u64, remove_member, sha256, sha256_digest, since_epoch,
    system_time_now, take_host, whole_seconds,
};
use crate::protocol::signature::{SignatureFields, SignatureFieldsModel};
use crate::protocol::wire::{
    be_bytes4, be_bytes8, be_fields, be_u32, field_encoding, field_fits, fields_encoding,
    law_fields_round_trip, law_number_round_trip, lemma_fields_extend, lemma_number_extends, put_field, read_fields,
    read_u32, views, Incomplete, Parsed,
};
use crate::server::index::{
    add_asn, add_country, asn_index, country_index, drop_asn, drop_country, find_asn,
    find_country, index_ok, lemma_except_step, lemma_filter_agree, lemma_filter_front,
    lemma_filter_no_duplicates, lemma_filter_twice, lemma_index_agree, lemma_index_front,
    lemma_missing_bucket, lemma_plus_step, lemma_take_contains, other_than, owns_except,
    owns_plus, remove_fingerprint, same_fingerprint, tagged, without, Fingerprint,
};
use crate::text::{decimal, hex, hex_string, lemma_decimal_reads_back, push_decimal};

verus! {

/// The first 32 bytes of a slice.
fn fingerprint_of(bytes: &[u8]) -> (r: Fingerprint)
    requires
        bytes@.len() >= 32,
    ensures
        r@ == bytes@.take(32),
{
    let mut out: Fingerprint = [0u8; 32];
    let mut i: usize = 0;
    while i < 32
        invariant
            i <= 32,
            bytes@.len() >= 32,
            forall|j: int| 0 <= j < i ==> out@[j] == bytes@[j],
        decreases 32 - i,
    {
        out[i] = bytes[i];
        i = i + 1;
    }
    assert(out@ =~= bytes@.take(32));
    out
}

/// The SHA-256 fingerprint of a certificate.
pub fn cert_fingerprint(cert_der: &[u8]) -> (r: Fingerprint)
    requires
        digestible(cert_der@),
    ensures
        r@ == sha256(cert_der@),
{
    let digest = sha256_digest(cert_der);
    assert(digest@.take(32) =~= digest@);
    fingerprint_of(digest.as_slice())
}

/// A fingerprint in lowercase hexadecimal.
pub fn fingerprint_hex(fingerprint: &Fingerprint) -> (r: String)
    ensures
        r@ == hex(fingerprint@),
{
    hex_string(vstd::array::array_as_slice(fingerprint))
}

/// The fingerprint of a certificate in lowercase hexadecimal.
pub fn cert_fingerprint_hex(cert_der: &[u8]) -> (r: String)
    requires
        digestible(cert_der@),
    ensures
        r@ == hex(sha256(cert_der@)),
{
    fingerprint_hex(&cert_fingerprint(cert_der))
}

/// A reading of the system clock in seconds since the Unix epoch: zero where the
/// clock is before the epoch.
pub fn seconds_or_zero(since_epoch: Option<u64>) -> (r: u64)
    ensures
        r == (match since_epoch {
            Some(seconds) => seconds,
            None => 0,
        }),
{
    match since_epoch {
        Some(seconds) => seconds,
        None => 0,
    }
}

/// The seconds since the Unix epoch, by the system clock.
pub fn unix_now_secs() -> u64 {
    let now = system_time_now();
    match since_epoch(&now) {
        Some(duration) => seconds_or_zero(Some(whole_seconds(&duration))),
        None => seconds_or_zero(None),
    }
}

/// The key of the record of a publisher.
pub open spec fn primary_key(host: Seq<char>, fingerprint: Seq<char>) -> Seq<char> {
    host + ":fp:"@ + fingerprint
}

/// The key of the index of all publishers of a host.
pub open spec fn all_key(host: Seq<char>) -> Seq<char> {
    host + ":idx:all"@
}

/// The key of the index of the publishers in a country.
pub open spec fn country_key(host: Seq<char>, country: Seq<char>) -> Seq<char> {
    host + ":idx:country:"@ + country
}

/// The key of the index of the publishers in an autonomous system.
pub open spec fn asn_key(host: Seq<char>, asn: u32) -> Seq<char> {
    host + ":idx:asn:"@ + decimal(asn as nat)
}

pub fn redis_primary_key(host: &str, fingerprint_hex: &str) -> (r: String)
    ensures
        r@ == primary_key(host@, fingerprint_hex@),
{
    let mut key = String::new();
    key.append(host);
    key.append(":fp:");
    key.append(fingerprint_hex);
    assert(key@ =~= primary_key(host@, fingerprint_hex@));
    key
}

pub fn redis_all_index_key(host: &str) -> (r: String)
    ensures
        r@ == all_key(host@),
{
    let mut key = String::new();
    key.append(host);
    key.append(":idx:all");
    assert(key@ =~= all_key(host@));
    key
}

pub fn redis_country_index_key(host: &str, country: &str) -> (r: String)
    ensures
        r@ == country_key(host@, country@),
{
    let mut key = String::new();
    key.append(host);
    key.append(":idx:country:");
    key.append(country);
    assert(key@ =~= country_key(host@, country@));
    key
}

pub fn redis_asn_index_key(host: &str, asn: u32) -> (r: String)
    ensures
        r@ == asn_key(host@, asn),
{
    let mut key = String::new();
    key.append(host);
    key.append(":idx:asn:");
    push_decimal(&mut key, asn as u64);
    assert(key@ =~= asn_key(host@, asn));
    key
}

/// The key of the set of hosts that are not looked up.
pub fn redis_blacklist_key() -> (r: &'static str)
    ensures
        r@ == "ddns:blacklist"@,
{
    "ddns:blacklist"
}

/// A record as it is stored under its primary key: a big-endian 64-bit expiry, the
/// fingerprint of the publisher, and five fields.
#[derive(Debug, PartialEq, Eq)]
pub struct StoredRecord {
    /// When the record goes stale, in seconds since the Unix epoch.
    pub expire_unix_secs: u64,
    pub fingerprint: Fingerprint,
    pub dns: Vec<u8>,
    pub cert: Vec<u8>,
    pub signature_fields: SignatureFields,
}

/// The contents of a [`StoredRecord`].
pub struct StoredModel {
    pub expire_unix_secs: u64,
    pub fingerprint: Seq<u8>,
    pub dns: Seq<u8>,
    pub cert: Seq<u8>,
    pub signature_fields: SignatureFieldsModel,
}

impl View for StoredRecord {
    type V = StoredModel;

    open spec fn view(&self) -> StoredModel {
        StoredModel {
            expire_unix_secs: self.expire_unix_secs,
            fingerprint: self.fingerprint@,
            dns: self.dns@,
            cert: self.cert@,
            signature_fields: self.signature_fields@,
        }
    }
}

impl StoredModel {
    /// The five fields in the order in which they are stored.
    pub open spec fn fields(self) -> Seq<Seq<u8>> {
        seq![
            self.signature_fields.content_digest,
            self.signature_fields.signature_input,
            self.signature_fields.signature,
            self.dns,
            self.cert,
        ]
    }

    /// The stored bytes.
    pub open spec fn encoding(self) -> Seq<u8> {
        be_bytes8(self.expire_unix_secs) + self.fingerprint + fields_encoding(self.fields())
    }

    /// Every length fits in the 32 bits that the format has for it.
    pub open spec fn fits(self) -> bool {
        forall|i: int| 0 <= i < self.fields().len() ==> field_fits(#[trigger] self.fields()[i])
    }
}

/// Reads a 64-bit number.
pub open spec fn read_u64(input: Seq<u8>) -> Parsed<nat> {
    if input.len() < 8 {
        Err((8 - input.len()) as nat)
    } else {
        let high = read_u32(input)->Ok_0.0;
        let low = read_u32(input.skip(4))->Ok_0.0;
        Ok((high * 0x1_0000_0000 + low, input.skip(8)))
    }
}

/// Reads a stored record.
pub open spec fn read_stored(input: Seq<u8>) -> Parsed<StoredModel> {
    match read_u64(input) {
        Err(needed) => Err(needed),
        Ok((expire, rest)) => if rest.len() < 32 {
            Err((32 - rest.len()) as nat)
        } else {
            match read_fields(rest.skip(32), 5) {
                Err(needed) => Err(needed),
                Ok((f, end)) => Ok(
                    (
                        StoredModel {
                            expire_unix_secs: expire as u64,
                            fingerprint: rest.take(32),
                            dns: f[3],
                            cert: f[4],
                            signature_fields: SignatureFieldsModel {
                                content_digest: f[0],
                                signature_input: f[1],
                                signature: f[2],
                            },
                        },
                        end,
                    ),
                ),
            }
        },
    }
}

/// Reads a stored record and nothing else.
pub open spec fn decode_stored(data: Seq<u8>) -> Option<StoredModel> {
    match read_stored(data) {
        Ok((record, rest)) => if rest.len() == 0 {
            Some(record)
        } else {
            None
        },
        Err(_) => None,
    }
}

fn be_u64(input: &[u8]) -> (r: Result<(&[u8], u64), Incomplete>)
    ensures
        match r {
            Ok((rest, value)) => read_u64(input@) == Ok::<_, nat>((value as nat, rest@)),
            Err(e) => read_u64(input@) == Err::<(nat, Seq<u8>), nat>(e.needed as nat),
        },
{
    if input.len() < 8 {
        return Err(Incomplete { needed: 8 - input.len() });
    }
    let (rest, high) = match be_u32(input) {
        Ok(parsed) => parsed,
        Err(e) => return Err(e),
    };
    let (rest, low) = match be_u32(rest) {
        Ok(parsed) => parsed,
        Err(e) => return Err(e),
    };
    assert(input@.skip(4).skip(4) =~= input@.skip(8));
    Ok((rest, high as u64 * 0x1_0000_0000 + low as u64))
}

/// Reads a stored record from the front of `input`. What follows is handed back.
pub fn be_stored_record(input: &[u8]) -> (r: Result<(&[u8], StoredRecord), Incomplete>)
    ensures
        match r {
            Ok((rest, record)) => read_stored(input@) == Ok::<_, nat>((record@, rest@)),
            Err(e) => read_stored(input@) == Err::<(StoredModel, Seq<u8>), nat>(e.needed as nat),
        },
{
    let (rest, expire_unix_secs) = match be_u64(input) {
        Ok(parsed) => parsed,
        Err(e) => return Err(e),
    };
    if rest.len() < 32 {
        return Err(Incomplete { needed: 32 - rest.len() });
    }
    let fingerprint = fingerprint_of(rest);
    let behind = vstd::slice::slice_subrange(rest, 32, rest.len());
    assert(behind@ =~= rest@.skip(32));
    let (end, mut fields) = match be_fields(behind, 5) {
        Ok(parsed) => parsed,
        Err(e) => return Err(e),
    };
    let ghost f = views(fields@);
    assert(f[0] == fields@[0]@ && f[1] == fields@[1]@ && f[2] == fields@[2]@ && f[3] == fields@[3]@
        && f[4] == fields@[4]@);
    let cert = fields.remove(4);
    let dns = fields.remove(3);
    let signature = fields.remove(2);
    let signature_input = fields.remove(1);
    let content_digest = fields.remove(0);
    Ok(
        (
            end,
            StoredRecord {
                expire_unix_secs,
                fingerprint,
                dns,
                cert,
                signature_fields: SignatureFields { content_digest, signature_input, signature },
            },
        ),
    )
}

proof fn lemma_stored_fields(record: StoredModel)
    ensures
        fields_encoding(record.fields()) == crate::protocol::wire::field_encoding(
            record.fields()[0],
        ) + crate::protocol::wire::field_encoding(record.fields()[1])
            + crate::protocol::wire::field_encoding(record.fields()[2])
            + crate::protocol::wire::field_encoding(record.fields()[3])
            + crate::protocol::wire::field_encoding(record.fields()[4]),
{
    let fields = record.fields();
    reveal_with_fuel(fields_encoding, 6);
    assert(fields.drop_last() =~= fields.take(4));
    assert(fields.take(4).drop_last() =~= fields.take(3));
    assert(fields.take(3).drop_last() =~= fields.take(2));
    assert(fields.take(2).drop_last() =~= fields.take(1));
    assert(fields.take(1).drop_last() =~= fields.take(0));
    assert(fields_encoding(fields) =~= crate::protocol::wire::field_encoding(fields[0])
        + crate::protocol::wire::field_encoding(fields[1]) + crate::protocol::wire::field_encoding(
        fields[2],
    ) + crate::protocol::wire::field_encoding(fields[3]) + crate::protocol::wire::field_encoding(
        fields[4],
    ));
}

impl StoredRecord {
    /// The bytes to store.
    pub fn encode(&self) -> (r: Vec<u8>)
        requires
            self@.encoding().len() <= isize::MAX,
        ensures
            r@ == self@.encoding(),
    {
        let mut buf: Vec<u8> = Vec::new();
        proof {
            lemma_stored_fields(self@);
        }
        put_u64(&mut buf, self.expire_unix_secs);
        put_slice(&mut buf, vstd::array::array_as_slice(&self.fingerprint));
        put_field(&mut buf, self.signature_fields.content_digest.as_slice());
        put_field(&mut buf, self.signature_fields.signature_input.as_slice());
        put_field(&mut buf, self.signature_fields.signature.as_slice());
        put_field(&mut buf, self.dns.as_slice());
        put_field(&mut buf, self.cert.as_slice());
        assert(buf@ =~= self@.encoding());
        buf
    }

    /// The record in stored bytes, or `None` where they are not one record.
    pub fn decode(data: &[u8]) -> (r: Option<Self>)
        ensures
            r is Some <==> decode_stored(data@) is Some,
            r is Some ==> decode_stored(data@) == Some((r->0)@),
    {
        match be_stored_record(data) {
            Ok((rest, record)) => if rest.is_empty() {
                Some(record)
            } else {
                None
            },
            Err(_) => None,
        }
    }
}

/// Decoding the stored bytes of a record gives the record back.
pub proof fn law_stored_record_round_trip(record: StoredModel)
    requires
        record.fits(),
        record.fingerprint.len() == 32,
    ensures
        decode_stored(record.encoding()) == Some(record),
{
    let n = record.expire_unix_secs;
    let high = (n / 0x1_0000_0000) as u32;
    let low = (n % 0x1_0000_0000) as u32;
    let data = record.encoding();
    let fields = fields_encoding(record.fields());
    let after = record.fingerprint + fields;
    assert(data =~= be_bytes4(high) + (be_bytes4(low) + after));
    law_number_round_trip(high, be_bytes4(low) + after);
    law_number_round_trip(low, after);
    assert(data.skip(4) =~= be_bytes4(low) + after);
    assert(data.skip(8) =~= after);
    assert(read_u64(data) == Ok::<_, nat>((n as nat, after)));
    assert(after.take(32) =~= record.fingerprint);
    assert(after.skip(32) =~= fields);
    assert(fields + Seq::<u8>::empty() =~= fields);
    law_fields_round_trip(record.fields(), Seq::empty());
}

proof fn lemma_stored_extends(input: Seq<u8>, tail: Seq<u8>)
    ensures
        read_stored(input) matches Ok((record, rest)) ==> read_stored(input + tail) == Ok::<_, nat>(
            (record, rest + tail),
        ),
{
    let more = input + tail;
    if input.len() >= 8 {
        lemma_number_extends(input, tail);
        lemma_number_extends(input.skip(4), tail);
        assert(more.skip(4) =~= input.skip(4) + tail);
        assert(more.skip(8) =~= input.skip(8) + tail);
        let rest = input.skip(8);
        if rest.len() >= 32 {
            assert((rest + tail).take(32) =~= rest.take(32));
            assert((rest + tail).skip(32) =~= rest.skip(32) + tail);
            lemma_fields_extend(rest.skip(32), 5, tail);
        }
    }
}

/// Stored bytes with something behind them are refused.
pub proof fn law_stored_bytes_with_a_tail_are_refused(data: Seq<u8>, tail: Seq<u8>)
    requires
        decode_stored(data) is Some,
        tail.len() > 0,
    ensures
        decode_stored(data + tail) is None,
{
    lemma_stored_extends(data, tail);
}

/// Stored bytes that are cut short are refused.
pub proof fn law_cut_stored_bytes_are_refused(data: Seq<u8>, n: int)
    requires
        decode_stored(data) is Some,
        0 <= n < data.len(),
    ensures
        decode_stored(data.take(n)) is None,
{
    let front = data.take(n);
    assert(front + data.skip(n) =~= data);
    if decode_stored(front) is Some {
        law_stored_bytes_with_a_tail_are_refused(front, data.skip(n));
    }
}

/// The countries and autonomous systems that a record has endpoints in. No tag
/// occurs twice.
#[derive(Debug, PartialEq, Eq)]
pub struct RecordIndexTags {
    pub countries: Vec<String>,
    pub asns: Vec<u32>,
}

impl RecordIndexTags {
    /// No tag occurs twice.
    pub open spec fn wf(self) -> bool {
        views(self.countries@).no_duplicates() && self.asns@.no_duplicates()
    }
}

impl Default for RecordIndexTags {
    fn default() -> (r: Self)
        ensures
            r.countries@.len() == 0,
            r.asns@.len() == 0,
            r.wf(),
    {
        RecordIndexTags { countries: Vec::new(), asns: Vec::new() }
    }
}

/// A record of a publisher, as it is held in memory.
#[derive(Debug, PartialEq, Eq)]
pub struct Record {
    pub dns_bytes: Vec<u8>,
    pub cert_bytes: Vec<u8>,
    pub signature_fields: SignatureFields,
    /// When the record goes stale, in nanoseconds on a clock that never goes back.
    pub expire: u128,
    pub index_tags: RecordIndexTags,
}

/// The contents of a [`Record`].
pub struct RecordModel {
    pub dns: Seq<u8>,
    pub cert: Seq<u8>,
    pub signature_fields: SignatureFieldsModel,
    pub expire: u128,
    pub countries: Seq<Seq<char>>,
    pub asns: Seq<u32>,
}

impl View for Record {
    type V = RecordModel;

    open spec fn view(&self) -> RecordModel {
        RecordModel {
            dns: self.dns_bytes@,
            cert: self.cert_bytes@,
            signature_fields: self.signature_fields@,
            expire: self.expire,
            countries: views(self.index_tags.countries@),
            asns: self.index_tags.asns@,
        }
    }
}

/// The records of one host, at most one for each publisher.
#[derive(Debug, PartialEq, Eq)]
pub struct HostRecords {
    pub records: Vec<(Fingerprint, Record)>,
    /// The publishers, the one that published last first.
    pub recent: Vec<Fingerprint>,
    pub by_country: Vec<(String, Vec<Fingerprint>)>,
    pub by_asn: Vec<(u32, Vec<Fingerprint>)>,
}

/// The contents of [`HostRecords`]: the record of each publisher, and the
/// publishers, the one that published last first.
#[verifier::ext_equal]
pub struct HostModel {
    pub records: Map<Seq<u8>, RecordModel>,
    pub recent: Seq<Seq<u8>>,
}

/// The record of each publisher.
pub open spec fn record_map(records: Seq<(Fingerprint, Record)>) -> Map<Seq<u8>, RecordModel>
    decreases records.len(),
{
    if records.len() == 0 {
        Map::empty()
    } else {
        record_map(records.drop_last()).insert(records.last().0@, records.last().1@)
    }
}

/// No publisher has two records.
pub open spec fn one_each(records: Seq<(Fingerprint, Record)>) -> bool {
    forall|i: int, j: int|
        0 <= i < j < records.len() ==> (#[trigger] records[i]).0@ != (#[trigger] records[j]).0@
}

proof fn lemma_record_map(records: Seq<(Fingerprint, Record)>)
    requires
        one_each(records),
    ensures
        forall|i: int|
            0 <= i < records.len() ==> record_map(records).dom().contains(
                (#[trigger] records[i]).0@,
            ) && record_map(records)[records[i].0@] == records[i].1@,
        forall|k: Seq<u8>| #[trigger]
            record_map(records).dom().contains(k) ==> exists|i: int|
                0 <= i < records.len() && (#[trigger] records[i]).0@ == k,
    decreases records.len(),
{
    if records.len() > 0 {
        let front = records.drop_last();
        assert forall|i: int, j: int| 0 <= i < j < front.len() implies (#[trigger] front[i]).0@ != (
        #[trigger] front[j]).0@ by {
            assert(front[i] == records[i] && front[j] == records[j]);
        }
        lemma_record_map(front);
        assert forall|i: int| 0 <= i < records.len() implies record_map(records).dom().contains(
            (#[trigger] records[i]).0@,
        ) && record_map(records)[records[i].0@] == records[i].1@ by {
            if i < front.len() {
                assert(front[i] == records[i]);
                assert(records[i].0@ != records[records.len() - 1].0@);
            }
        }
        assert forall|k: Seq<u8>| #[trigger]
            record_map(records).dom().contains(k) implies exists|i: int|
            0 <= i < records.len() && (#[trigger] records[i]).0@ == k by {
            if k == records.last().0@ {
                assert(records[records.len() - 1].0@ == k);
            } else {
                assert(record_map(front).dom().contains(k));
                let i = choose|i: int| 0 <= i < front.len() && (#[trigger] front[i]).0@ == k;
                assert(front[i] == records[i]);
                assert(records[i].0@ == k);
            }
        }
    }
}

proof fn lemma_record_map_remove(records: Seq<(Fingerprint, Record)>, i: int)
    requires
        one_each(records),
        0 <= i < records.len(),
    ensures
        one_each(records.remove(i)),
        record_map(records.remove(i)) == record_map(records).remove(records[i].0@),
{
    let after = records.remove(i);
    assert forall|a: int, b: int| 0 <= a < b < after.len() implies (#[trigger] after[a]).0@ != (
    #[trigger] after[b]).0@ by {
        let a2 = if a < i {
            a
        } else {
            a + 1
        };
        let b2 = if b < i {
            b
        } else {
            b + 1
        };
        assert(after[a] == records[a2] && after[b] == records[b2]);
    }
    lemma_record_map(records);
    lemma_record_map(after);
    let m = record_map(records).remove(records[i].0@);
    let n = record_map(after);
    assert forall|k: Seq<u8>| m.dom().contains(k) <==> n.dom().contains(k) by {
        if m.dom().contains(k) {
            let j = choose|j: int| 0 <= j < records.len() && (#[trigger] records[j]).0@ == k;
            if j < i {
                assert(after[j] == records[j]);
            } else {
                assert(after[j - 1] == records[j]);
            }
        }
        if n.dom().contains(k) {
            let j = choose|j: int| 0 <= j < after.len() && (#[trigger] after[j]).0@ == k;
            let j2 = if j < i {
                j
            } else {
                j + 1
            };
            assert(after[j] == records[j2]);
        }
    }
    assert forall|k: Seq<u8>| m.dom().contains(k) implies m[k] == n[k] by {
        let j = choose|j: int| 0 <= j < records.len() && (#[trigger] records[j]).0@ == k;
        let j2 = if j < i {
            j
        } else {
            j - 1
        };
        assert(after[j2] == records[j]);
    }
    assert(m =~= n);
}

/// Whether a publisher has an endpoint in a country.
pub open spec fn country_of(records: Map<Seq<u8>, RecordModel>) -> spec_fn(
    Seq<u8>,
    Seq<char>,
) -> bool {
    |x: Seq<u8>, c: Seq<char>| records.dom().contains(x) && records[x].countries.contains(c)
}

/// Whether a publisher has an endpoint in an autonomous system.
pub open spec fn asn_of(records: Map<Seq<u8>, RecordModel>) -> spec_fn(Seq<u8>, u32) -> bool {
    |x: Seq<u8>, n: u32| records.dom().contains(x) && records[x].asns.contains(n)
}

impl View for HostRecords {
    type V = HostModel;

    open spec fn view(&self) -> HostModel {
        HostModel { records: record_map(self.records@), recent: views(self.recent@) }
    }
}

impl HostModel {
    /// No record.
    pub open spec fn empty() -> Self {
        HostModel { records: Map::empty(), recent: Seq::empty() }
    }

    /// Every publisher with a record occurs once in the order.
    pub open spec fn wf(self) -> bool {
        self.recent.no_duplicates() && self.recent.to_set() == self.records.dom()
    }

    /// The publishers with an endpoint in a country, the one that published last
    /// first.
    pub open spec fn in_country(self, country: Seq<char>) -> Seq<Seq<u8>> {
        self.recent.filter(tagged(country_of(self.records), country))
    }

    /// The publishers with an endpoint in an autonomous system, the one that
    /// published last first.
    pub open spec fn in_asn(self, asn: u32) -> Seq<Seq<u8>> {
        self.recent.filter(tagged(asn_of(self.records), asn))
    }

    /// Once a publisher has published a record.
    pub open spec fn inserted(self, fp: Seq<u8>, record: RecordModel) -> Self {
        HostModel {
            records: self.records.insert(fp, record),
            recent: seq![fp] + without(self.recent, fp),
        }
    }

    /// Once a publisher has withdrawn its record.
    pub open spec fn removed(self, fp: Seq<u8>) -> Self {
        HostModel { records: self.records.remove(fp), recent: without(self.recent, fp) }
    }

    /// To have a record that is not stale.
    pub open spec fn is_active(self, now: u128) -> spec_fn(Seq<u8>) -> bool {
        |fp: Seq<u8>| self.records.dom().contains(fp) && self.records[fp].expire > now
    }

    /// Without the records that are stale.
    pub open spec fn active(self, now: u128) -> Self {
        HostModel {
            records: self.records.restrict(Set::new(self.is_active(now))),
            recent: self.recent.filter(self.is_active(now)),
        }
    }
}

impl HostRecords {
    /// The order and the indexes fit the records.
    pub open spec fn wf(self) -> bool {
        &&& one_each(self.records@)
        &&& self@.wf()
        &&& index_ok(
            country_index(self.by_country@),
            self@.recent,
            country_of(self@.records),
        )
        &&& index_ok(asn_index(self.by_asn@), self@.recent, asn_of(self@.records))
    }
}

impl Default for HostRecords {
    fn default() -> (r: Self)
        ensures
            r.wf(),
            r@ == HostModel::empty(),
    {
        let r = HostRecords {
            records: Vec::new(),
            recent: Vec::new(),
            by_country: Vec::new(),
            by_asn: Vec::new(),
        };
        assert(r@.recent =~= Seq::<Seq<u8>>::empty());
        assert(r@.recent.to_set() =~= r@.records.dom());
        r
    }
}

proof fn lemma_without_members(recent: Seq<Seq<u8>>, fp: Seq<u8>)
    requires
        recent.no_duplicates(),
    ensures
        without(recent, fp).no_duplicates(),
        without(recent, fp).to_set() == recent.to_set().remove(fp),
        !without(recent, fp).contains(fp),
{
    lemma_filter_no_duplicates(recent, other_than(fp));
    assert(without(recent, fp).to_set() =~= recent.to_set().remove(fp));
}

proof fn lemma_without_absent(recent: Seq<Seq<u8>>, fp: Seq<u8>)
    requires
        !recent.contains(fp),
    ensures
        without(recent, fp) == recent,
{
    lemma_filter_agree(recent, other_than(fp), |x: Seq<u8>| true);
    lemma_filter_all(recent, |x: Seq<u8>| true);
}

proof fn lemma_filter_all<A>(s: Seq<A>, p: spec_fn(A) -> bool)
    requires
        forall|i: int| 0 <= i < s.len() ==> p(#[trigger] s[i]),
    ensures
        s.filter(p) == s,
    decreases s.len(),
{
    reveal(Seq::filter);
    if s.len() > 0 {
        assert(forall|i: int| 0 <= i < s.drop_last().len() ==> s.drop_last()[i] == s[i]);
        lemma_filter_all(s.drop_last(), p);
        assert(p(s[s.len() - 1]));
        assert(s.drop_last().push(s.last()) =~= s);
    } else {
        assert(s.filter(p) =~= s);
    }
}

impl HostRecords {
    fn find(&self, fingerprint: &Fingerprint) -> (r: Option<usize>)
        requires
            one_each(self.records@),
        ensures
            match r {
                Some(i) => i < self.records@.len() && self.records@[i as int].0@ == fingerprint@
                    && self@.records.dom().contains(fingerprint@)
                    && self@.records[fingerprint@] == self.records@[i as int].1@,
                None => !self@.records.dom().contains(fingerprint@),
            },
    {
        let mut i: usize = 0;
        proof {
            lemma_record_map(self.records@);
        }
        while i < self.records.len()
            invariant
                i <= self.records@.len(),
                forall|j: int|
                    0 <= j < i ==> (#[trigger] self.records@[j]).0@ != fingerprint@,
                forall|j: int|
                    0 <= j < self.records@.len() ==> record_map(self.records@).dom().contains(
                        (#[trigger] self.records@[j]).0@,
                    ) && record_map(self.records@)[self.records@[j].0@] == self.records@[j].1@,
            decreases self.records@.len() - i,
        {
            if same_fingerprint(&self.records[i].0, fingerprint) {
                return Some(i);
            }
            i = i + 1;
        }
        None
    }

    /// The record of a publisher.
    pub fn get(&self, fingerprint: &Fingerprint) -> (r: Option<&Record>)
        requires
            self.wf(),
        ensures
            r is Some <==> self@.records.dom().contains(fingerprint@),
            r is Some ==> (r->0)@ == self@.records[fingerprint@],
    {
        match self.find(fingerprint) {
            Some(i) => Some(&self.records[i].1),
            None => None,
        }
    }

    /// Takes a publisher out of the order and of the buckets of its tags. `records`
    /// is the record of each publisher before.
    fn remove_from_indexes(
        &mut self,
        fingerprint: &Fingerprint,
        tags: &RecordIndexTags,
        Ghost(records): Ghost<Map<Seq<u8>, RecordModel>>,
    )
        requires
            old(self)@.recent.no_duplicates(),
            records.dom().contains(fingerprint@),
            records[fingerprint@].countries == views(tags.countries@),
            records[fingerprint@].asns == tags.asns@,
            index_ok(
                country_index(old(self).by_country@),
                old(self)@.recent,
                country_of(records),
            ),
            index_ok(asn_index(old(self).by_asn@), old(self)@.recent, asn_of(records)),
        ensures
            final(self).records == old(self).records,
            final(self)@.recent == without(old(self)@.recent, fingerprint@),
            index_ok(
                country_index(final(self).by_country@),
                final(self)@.recent,
                country_of(records.remove(fingerprint@)),
            ),
            index_ok(
                asn_index(final(self).by_asn@),
                final(self)@.recent,
                asn_of(records.remove(fingerprint@)),
            ),
    {
        let ghost recent = self@.recent;
        let ghost fp = fingerprint@;
        let ghost countries = views(tags.countries@);
        let ghost asns = tags.asns@;
        let ghost by_country = country_of(records);
        let ghost by_asn = asn_of(records);
        remove_fingerprint(&mut self.recent, fingerprint);
        let mut i: usize = 0;
        proof {
            assert forall|j: int, k: Seq<char>|
                #![trigger by_country(recent[j], k)]
                0 <= j < recent.len() implies by_country(recent[j], k) == owns_except(
                by_country,
                fp,
                countries.take(0),
            )(recent[j], k) by {}
            lemma_index_agree(
                country_index(self.by_country@),
                recent,
                by_country,
                owns_except(by_country, fp, countries.take(0)),
            );
        }
        while i < tags.countries.len()
            invariant
                i <= tags.countries@.len(),
                self.records == old(self).records,
                self.by_asn == old(self).by_asn,
                views(self.recent@) == without(recent, fp),
                fp == fingerprint@,
                countries == views(tags.countries@),
                index_ok(
                    country_index(self.by_country@),
                    recent,
                    owns_except(by_country, fp, countries.take(i as int)),
                ),
            decreases tags.countries@.len() - i,
        {
            assert(countries[i as int] == tags.countries@[i as int]@);
            drop_country(
                &mut self.by_country,
                tags.countries[i].as_str(),
                fingerprint,
                Ghost(recent),
                Ghost(owns_except(by_country, fp, countries.take(i as int))),
            );
            proof {
                lemma_except_step(
                    country_index(self.by_country@),
                    recent,
                    by_country,
                    fp,
                    countries,
                    i as int,
                );
            }
            i = i + 1;
        }
        let mut i: usize = 0;
        proof {
            assert forall|j: int, k: u32|
                #![trigger by_asn(recent[j], k)]
                0 <= j < recent.len() implies by_asn(recent[j], k) == owns_except(
                by_asn,
                fp,
                asns.take(0),
            )(recent[j], k) by {}
            lemma_index_agree(
                asn_index(self.by_asn@),
                recent,
                by_asn,
                owns_except(by_asn, fp, asns.take(0)),
            );
        }
        let ghost countries_done = self.by_country@;
        while i < tags.asns.len()
            invariant
                i <= tags.asns@.len(),
                self.records == old(self).records,
                self.by_country@ == countries_done,
                views(self.recent@) == without(recent, fp),
                fp == fingerprint@,
                asns == tags.asns@,
                index_ok(
                    asn_index(self.by_asn@),
                    recent,
                    owns_except(by_asn, fp, asns.take(i as int)),
                ),
            decreases tags.asns@.len() - i,
        {
            drop_asn(
                &mut self.by_asn,
                tags.asns[i],
                fingerprint,
                Ghost(recent),
                Ghost(owns_except(by_asn, fp, asns.take(i as int))),
            );
            proof {
                lemma_except_step(asn_index(self.by_asn@), recent, by_asn, fp, asns, i as int);
            }
            i = i + 1;
        }
        proof {
            assert(countries.take(countries.len() as int) =~= countries);
            assert(asns.take(asns.len() as int) =~= asns);
            let c = owns_except(by_country, fp, countries);
            let a = owns_except(by_asn, fp, asns);
            assert forall|k: Seq<char>| !(#[trigger] c(fp, k)) by {}
            assert forall|k: u32| !(#[trigger] a(fp, k)) by {}
            lemma_index_front(country_index(self.by_country@), recent, c, fp);
            lemma_index_front(asn_index(self.by_asn@), recent, a, fp);
            let less = without(recent, fp);
            lemma_without_members(recent, fp);
            assert forall|j: int| 0 <= j < less.len() implies #[trigger] less[j] != fp by {
                assert(less.contains(less[j]));
            }
            lemma_index_agree(
                country_index(self.by_country@),
                less,
                c,
                country_of(records.remove(fp)),
            );
            lemma_index_agree(asn_index(self.by_asn@), less, a, asn_of(records.remove(fp)));
        }
    }

    /// Takes the record of a publisher away.
    pub fn remove(&mut self, fingerprint: &Fingerprint) -> (r: Option<Record>)
        requires
            old(self).wf(),
        ensures
            final(self).wf(),
            final(self)@ == old(self)@.removed(fingerprint@),
            r is Some <==> old(self)@.records.dom().contains(fingerprint@),
            r is Some ==> (r->0)@ == old(self)@.records[fingerprint@],
    {
        match self.find(fingerprint) {
            Some(i) => {
                let ghost before = self@;
                proof {
                    lemma_record_map_remove(self.records@, i as int);
                    lemma_without_members(before.recent, fingerprint@);
                }
                let (_, record) = self.records.remove(i);
                self.remove_from_indexes(fingerprint, &record.index_tags, Ghost(before.records));
                assert(self@.recent.to_set() =~= self@.records.dom());
                Some(record)
            },
            None => {
                proof {
                    assert(!self@.recent.contains(fingerprint@)) by {
                        if self@.recent.contains(fingerprint@) {
                            assert(self@.recent.to_set().contains(fingerprint@));
                        }
                    }
                    lemma_without_absent(self@.recent, fingerprint@);
                    assert(self@.records.remove(fingerprint@) =~= self@.records);
                }
                None
            },
        }
    }

    /// Stores the record of a publisher in place of the one it had.
    pub fn insert(&mut self, fingerprint: Fingerprint, record: Record)
        requires
            old(self).wf(),
            record.index_tags.wf(),
        ensures
            final(self).wf(),
            final(self)@ == old(self)@.inserted(fingerprint@, record@),
    {
        let ghost before = self@;
        let ghost fp = fingerprint@;
        let _old = self.remove(&fingerprint);
        let ghost mid = self@;
        let ghost rest = mid.recent;
        let ghost recent = seq![fp] + rest;
        let ghost countries = views(record.index_tags.countries@);
        let ghost asns = record.index_tags.asns@;
        let ghost by_country = country_of(mid.records);
        let ghost by_asn = asn_of(mid.records);
        proof {
            lemma_without_members(before.recent, fp);
            assert forall|k: Seq<char>| !(#[trigger] by_country(fp, k)) by {}
            assert forall|k: u32| !(#[trigger] by_asn(fp, k)) by {}
            lemma_index_front(country_index(self.by_country@), rest, by_country, fp);
            lemma_index_front(asn_index(self.by_asn@), rest, by_asn, fp);
            lemma_index_agree(
                country_index(self.by_country@),
                recent,
                by_country,
                owns_plus(by_country, fp, countries.take(0)),
            );
            lemma_index_agree(
                asn_index(self.by_asn@),
                recent,
                by_asn,
                owns_plus(by_asn, fp, asns.take(0)),
            );
        }
        self.recent.insert(0, fingerprint);
        assert(views(self.recent@) =~= recent);
        let mut i: usize = 0;
        while i < record.index_tags.countries.len()
            invariant
                i <= record.index_tags.countries@.len(),
                record.index_tags.wf(),
                fp == fingerprint@,
                recent == seq![fp] + rest,
                !rest.contains(fp),
                countries == views(record.index_tags.countries@),
                forall|k: Seq<char>| !(#[trigger] by_country(fp, k)),
                views(self.recent@) == recent,
                one_each(self.records@),
                record_map(self.records@) == mid.records,
                index_ok(
                    asn_index(self.by_asn@),
                    recent,
                    owns_plus(by_asn, fp, asns.take(0)),
                ),
                index_ok(
                    country_index(self.by_country@),
                    recent,
                    owns_plus(by_country, fp, countries.take(i as int)),
                ),
            decreases record.index_tags.countries@.len() - i,
        {
            let ghost so_far = owns_plus(by_country, fp, countries.take(i as int));
            proof {
                assert(countries[i as int] == record.index_tags.countries@[i as int]@);
                lemma_take_contains(countries, i as int);
                assert(!by_country(fp, countries[i as int]));
                assert(!so_far(fp, countries[i as int]));
            }
            add_country(
                &mut self.by_country,
                &record.index_tags.countries[i],
                fingerprint,
                Ghost(rest),
                Ghost(so_far),
            );
            proof {
                lemma_plus_step(
                    country_index(self.by_country@),
                    recent,
                    by_country,
                    fp,
                    countries,
                    i as int,
                );
            }
            i = i + 1;
        }
        let mut i: usize = 0;
        while i < record.index_tags.asns.len()
            invariant
                i <= record.index_tags.asns@.len(),
                record.index_tags.wf(),
                fp == fingerprint@,
                recent == seq![fp] + rest,
                !rest.contains(fp),
                asns == record.index_tags.asns@,
                forall|k: u32| !(#[trigger] by_asn(fp, k)),
                views(self.recent@) == recent,
                one_each(self.records@),
                record_map(self.records@) == mid.records,
                countries == views(record.index_tags.countries@),
                index_ok(
                    country_index(self.by_country@),
                    recent,
                    owns_plus(by_country, fp, countries.take(countries.len() as int)),
                ),
                index_ok(
                    asn_index(self.by_asn@),
                    recent,
                    owns_plus(by_asn, fp, asns.take(i as int)),
                ),
            decreases record.index_tags.asns@.len() - i,
        {
            let ghost so_far = owns_plus(by_asn, fp, asns.take(i as int));
            proof {
                lemma_take_contains(asns, i as int);
                assert(!by_asn(fp, asns[i as int]));
                assert(!so_far(fp, asns[i as int]));
            }
            add_asn(
                &mut self.by_asn,
                record.index_tags.asns[i],
                fingerprint,
                Ghost(rest),
                Ghost(so_far),
            );
            proof {
                lemma_plus_step(asn_index(self.by_asn@), recent, by_asn, fp, asns, i as int);
            }
            i = i + 1;
        }
        let ghost stored = self.records@;
        let ghost model = record@;
        self.records.push((fingerprint, record));
        proof {
            assert(self.records@.drop_last() =~= stored);
            lemma_record_map(stored);
            assert forall|a: int, b: int| 0 <= a < b < self.records@.len() implies (
            #[trigger] self.records@[a]).0@ != (#[trigger] self.records@[b]).0@ by {
                if b == stored.len() {
                    assert(record_map(stored).dom().contains(stored[a].0@));
                } else {
                    assert(self.records@[a] == stored[a] && self.records@[b] == stored[b]);
                }
            }
            let records = mid.records.insert(fp, model);
            assert(self@.records == records);
            assert(records =~= before.records.insert(fp, model));
            assert(countries.take(countries.len() as int) =~= countries);
            assert(asns.take(asns.len() as int) =~= asns);
            lemma_index_agree(
                country_index(self.by_country@),
                recent,
                owns_plus(by_country, fp, countries),
                country_of(records),
            );
            lemma_index_agree(
                asn_index(self.by_asn@),
                recent,
                owns_plus(by_asn, fp, asns),
                asn_of(records),
            );
            assert(recent.no_duplicates()) by {
                assert forall|a: int, b: int|
                    0 <= a < recent.len() && 0 <= b < recent.len() && a != b implies recent[a]
                    != recent[b] by {
                    if a == 0 {
                        assert(rest.contains(rest[b - 1]));
                    } else if b == 0 {
                        assert(rest.contains(rest[a - 1]));
                    }
                }
            }
            assert(recent.to_set() =~= records.dom()) by {
                assert forall|x: Seq<u8>| recent.contains(x) <==> records.dom().contains(x) by {
                    if recent.contains(x) {
                        let k = choose|k: int| 0 <= k < recent.len() && recent[k] == x;
                        if k > 0 {
                            assert(rest[k - 1] == x);
                            assert(rest.to_set().contains(x));
                        }
                    }
                    if records.dom().contains(x) {
                        if x == fp {
                            assert(recent[0] == x);
                        } else {
                            assert(rest.to_set().contains(x));
                            let k = choose|k: int| 0 <= k < rest.len() && rest[k] == x;
                            assert(recent[k + 1] == x);
                        }
                    }
                }
            }
        }
    }

    /// Whether there is no record.
    pub fn is_empty(&self) -> (r: bool)
        requires
            self.wf(),
        ensures
            r == (self@.recent.len() == 0),
            r == (self@ == HostModel::empty()),
    {
        let r = self.records.is_empty();
        proof {
            lemma_record_map(self.records@);
            if r {
                assert(self@.recent.len() == 0) by {
                    if self@.recent.len() > 0 {
                        assert(self@.recent.to_set().contains(self@.recent[0]));
                    }
                }
                assert(self@.recent =~= Seq::<Seq<u8>>::empty());
            } else {
                let fp = self.records@[0].0@;
                assert(self@.records.dom().contains(fp));
                assert(self@.recent.to_set().contains(fp));
            }
        }
        r
    }
}

/// The order of the publishers once these have left.
pub open spec fn outside_of(gone: Seq<Seq<u8>>) -> spec_fn(Seq<u8>) -> bool {
    |fp: Seq<u8>| !gone.contains(fp)
}

impl HostRecords {
    /// Takes the stale records away.
    pub fn retain_active(&mut self, now: u128)
        requires
            old(self).wf(),
        ensures
            final(self).wf(),
            final(self)@ == old(self)@.active(now),
    {
        let ghost before = self@;
        let mut expired: Vec<Fingerprint> = Vec::new();
        let mut i: usize = 0;
        proof {
            lemma_record_map(self.records@);
        }
        while i < self.records.len()
            invariant
                *self == *old(self),
                before == self@,
                i <= self.records@.len(),
                forall|j: int|
                    0 <= j < self.records@.len() ==> before.records.dom().contains(
                        (#[trigger] self.records@[j]).0@,
                    ) && before.records[self.records@[j].0@] == self.records@[j].1@,
                forall|k: Seq<u8>| #[trigger]
                    views(expired@).contains(k) ==> before.records.dom().contains(k)
                        && before.records[k].expire <= now,
                forall|j: int|
                    0 <= j < i && before.records[(#[trigger] self.records@[j]).0@].expire <= now
                        ==> views(expired@).contains(self.records@[j].0@),
            decreases self.records@.len() - i,
        {
            let ghost listed = views(expired@);
            let ghost fp = self.records@[i as int].0@;
            if self.records[i].1.expire <= now {
                let fingerprint = self.records[i].0;
                proof {
                    crate::protocol::wire::lemma_views_push(expired@, fingerprint);
                }
                expired.push(fingerprint);
                assert forall|k: Seq<u8>| #[trigger]
                    views(expired@).contains(k) <==> listed.contains(k) || k == fp by {
                    lemma_push_contains(listed, fp, k);
                }
                assert(self.records@[i as int].1@.expire <= now);
            }
            i = i + 1;
        }
        let ghost gone = views(expired@);
        assert forall|k: Seq<u8>| before.records.dom().contains(k) implies (gone.contains(k)
            <==> before.records[k].expire <= now) by {
            lemma_record_map(self.records@);
            let j = choose|j: int|
                0 <= j < self.records@.len() && (#[trigger] self.records@[j]).0@ == k;
            assert(before.records[self.records@[j].0@] == self.records@[j].1@);
        }
        let mut i: usize = 0;
        proof {
            lemma_filter_all(before.recent, outside_of(gone.take(0)));
        }
        while i < expired.len()
            invariant
                i <= expired@.len(),
                gone == views(expired@),
                self.wf(),
                forall|k: Seq<u8>| #[trigger]
                    self@.records.dom().contains(k) <==> before.records.dom().contains(k)
                        && !gone.take(i as int).contains(k),
                forall|k: Seq<u8>| #[trigger]
                    self@.records.dom().contains(k) ==> self@.records[k] == before.records[k],
                self@.recent == before.recent.filter(outside_of(gone.take(i as int))),
            decreases expired@.len() - i,
        {
            let fingerprint = expired[i];
            proof {
                lemma_take_contains(gone, i as int);
                lemma_filter_twice(
                    before.recent,
                    outside_of(gone.take(i as int)),
                    other_than(fingerprint@),
                    outside_of(gone.take(i + 1)),
                );
            }
            let _ = self.remove(&fingerprint);
            i = i + 1;
        }
        proof {
            assert(gone.take(gone.len() as int) =~= gone);
            let active = before.active(now);
            assert(self@.records =~= active.records) by {
                assert forall|k: Seq<u8>| self@.records.dom().contains(k)
                    <==> active.records.dom().contains(k) by {}
            }
            assert forall|j: int| 0 <= j < before.recent.len() implies outside_of(gone)(
                #[trigger] before.recent[j],
            ) == before.is_active(now)(before.recent[j]) by {
                assert(before.recent.to_set().contains(before.recent[j]));
            }
            lemma_filter_agree(before.recent, outside_of(gone), before.is_active(now));
        }
    }
}

proof fn lemma_push_contains<A>(s: Seq<A>, x: A, k: A)
    ensures
        s.push(x).contains(k) <==> s.contains(k) || k == x,
{
    if s.contains(k) {
        let j = choose|j: int| 0 <= j < s.len() && s[j] == k;
        assert(s.push(x)[j] == k);
    }
    if k == x {
        assert(s.push(x)[s.len() as int] == k);
    }
    if s.push(x).contains(k) {
        let j = choose|j: int| 0 <= j < s.push(x).len() && s.push(x)[j] == k;
        if j < s.len() {
            assert(s[j] == k);
        }
    }
}

/// `taken` with the items that are not in it yet, one after the other, until there
/// are `total`.
pub open spec fn push_unique<A>(taken: Seq<A>, items: Seq<A>, total: nat) -> Seq<A>
    decreases items.len(),
{
    if items.len() == 0 {
        taken
    } else {
        let so_far = push_unique(taken, items.drop_last(), total);
        if so_far.len() >= total || so_far.contains(items.last()) {
            so_far
        } else {
            so_far.push(items.last())
        }
    }
}

/// The first `n` items, or all of them where there are fewer.
pub open spec fn at_most<A>(items: Seq<A>, n: nat) -> Seq<A> {
    if items.len() <= n {
        items
    } else {
        items.take(n as int)
    }
}

pub open spec fn least(a: nat, b: nat) -> nat {
    if a <= b {
        a
    } else {
        b
    }
}

impl HostModel {
    /// The publishers to consider for a lookup from a country and an autonomous
    /// system: those in the same autonomous system come first, then those in the
    /// same country, then all. Each group is capped, and so is the whole.
    pub open spec fn candidates(
        self,
        country: Option<Seq<char>>,
        asn: Option<u32>,
        total_cap: nat,
        asn_cap: nat,
        country_cap: nat,
        all_cap: nat,
    ) -> Seq<Seq<u8>> {
        let none = Seq::<Seq<u8>>::empty();
        let near = match asn {
            Some(asn) => push_unique(
                none,
                at_most(self.in_asn(asn), least(asn_cap, total_cap)),
                total_cap,
            ),
            None => none,
        };
        let home = match country {
            Some(country) => push_unique(
                near,
                at_most(self.in_country(country), least(country_cap, total_cap)),
                total_cap,
            ),
            None => near,
        };
        push_unique(home, at_most(self.recent, least(all_cap, total_cap)), total_cap)
    }
}

fn push_bucket(
    candidates: &mut Vec<Fingerprint>,
    bucket: &Vec<Fingerprint>,
    bucket_cap: usize,
    total_cap: usize,
)
    ensures
        views(final(candidates)@) == push_unique(
            views(old(candidates)@),
            at_most(views(bucket@), bucket_cap as nat),
            total_cap as nat,
        ),
{
    let ghost taken = views(candidates@);
    let ghost items = at_most(views(bucket@), bucket_cap as nat);
    let n: usize = if bucket.len() <= bucket_cap { bucket.len() } else { bucket_cap };
    let mut i: usize = 0;
    while i < n
        invariant
            i <= n,
            n == items.len(),
            n <= bucket@.len(),
            forall|j: int| 0 <= j < n ==> #[trigger] items[j] == bucket@[j]@,
            views(candidates@) == push_unique(taken, items.take(i as int), total_cap as nat),
        decreases n - i,
    {
        let fingerprint = bucket[i];
        proof {
            assert(items.take(i + 1).drop_last() =~= items.take(i as int));
            assert(items.take(i + 1).last() == fingerprint@);
            crate::protocol::wire::lemma_views_push(candidates@, fingerprint);
        }
        if candidates.len() < total_cap && !contains_fingerprint(candidates, &fingerprint) {
            candidates.push(fingerprint);
        }
        i = i + 1;
    }
    assert(items.take(i as int) =~= items);
}

fn contains_fingerprint(list: &Vec<Fingerprint>, fingerprint: &Fingerprint) -> (r: bool)
    ensures
        r == views(list@).contains(fingerprint@),
{
    let mut i: usize = 0;
    while i < list.len()
        invariant
            i <= list@.len(),
            forall|j: int| 0 <= j < i ==> #[trigger] views(list@)[j] != fingerprint@,
        decreases list@.len() - i,
    {
        assert(views(list@)[i as int] == list@[i as int]@);
        if same_fingerprint(&list[i], fingerprint) {
            return true;
        }
        i = i + 1;
    }
    false
}

fn min_usize(a: usize, b: usize) -> (r: usize)
    ensures
        r == least(a as nat, b as nat),
{
    if a <= b {
        a
    } else {
        b
    }
}

impl HostRecords {
    /// The publishers to consider for a lookup. See [`HostModel::candidates`].
    pub fn collect_candidates(
        &self,
        source_country: Option<&str>,
        source_asn: Option<u32>,
        total_cap: usize,
        asn_cap: usize,
        country_cap: usize,
        all_cap: usize,
    ) -> (r: Vec<Fingerprint>)
        requires
            self.wf(),
        ensures
            views(r@) == self@.candidates(
                match source_country {
                    Some(country) => Some(country@),
                    None => None,
                },
                source_asn,
                total_cap as nat,
                asn_cap as nat,
                country_cap as nat,
                all_cap as nat,
            ),
    {
        let mut candidates: Vec<Fingerprint> = Vec::new();
        let empty: Vec<Fingerprint> = Vec::new();
        assert(views(candidates@) =~= Seq::<Seq<u8>>::empty());
        assert(views(empty@) =~= Seq::<Seq<u8>>::empty());
        if let Some(asn) = source_asn {
            let cap = min_usize(asn_cap, total_cap);
            match find_asn(&self.by_asn, asn) {
                Some(i) => {
                    assert(asn_index(self.by_asn@)[i as int].1 == views(self.by_asn@[i as int].1@));
                    push_bucket(&mut candidates, &self.by_asn[i].1, cap, total_cap);
                },
                None => {
                    proof {
                        lemma_missing_bucket(
                            asn_index(self.by_asn@),
                            self@.recent,
                            asn_of(self@.records),
                            asn,
                        );
                    }
                    push_bucket(&mut candidates, &empty, cap, total_cap);
                },
            }
        }
        if let Some(country) = source_country {
            let cap = min_usize(country_cap, total_cap);
            match find_country(&self.by_country, country) {
                Some(i) => {
                    assert(country_index(self.by_country@)[i as int].1 == views(
                        self.by_country@[i as int].1@,
                    ));
                    push_bucket(&mut candidates, &self.by_country[i].1, cap, total_cap);
                },
                None => {
                    proof {
                        lemma_missing_bucket(
                            country_index(self.by_country@),
                            self@.recent,
                            country_of(self@.records),
                            country@,
                        );
                    }
                    push_bucket(&mut candidates, &empty, cap, total_cap);
                },
            }
        }
        push_bucket(&mut candidates, &self.recent, min_usize(all_cap, total_cap), total_cap);
        candidates
    }
}

/// What was taken stays in front, nothing is taken twice, and nothing is left out before
/// there are `total`.
pub proof fn lemma_push_unique<A>(taken: Seq<A>, items: Seq<A>, total: nat)
    requires
        taken.no_duplicates(),
        taken.len() <= total,
    ensures
        push_unique(taken, items, total).no_duplicates(),
        push_unique(taken, items, total).len() <= total,
        taken.is_prefix_of(push_unique(taken, items, total)),
        forall|x: A| #[trigger]
            push_unique(taken, items, total).contains(x) ==> taken.contains(x)
                || items.contains(x),
        push_unique(taken, items, total).len() < total ==> forall|x: A|
            items.contains(x) ==> #[trigger] push_unique(taken, items, total).contains(x),
    decreases items.len(),
{
    if items.len() > 0 {
        let front = items.drop_last();
        let so_far = push_unique(taken, front, total);
        let all = push_unique(taken, items, total);
        lemma_push_unique(taken, front, total);
        assert forall|x: A| #[trigger] all.contains(x) implies taken.contains(x) || items.contains(
            x,
        ) by {
            lemma_push_contains(so_far, items.last(), x);
            if so_far.contains(x) {
                if front.contains(x) {
                    let j = choose|j: int| 0 <= j < front.len() && front[j] == x;
                    assert(items[j] == x);
                }
            } else {
                assert(items[items.len() - 1] == x);
            }
        }
        if all.len() < total {
            assert forall|x: A| items.contains(x) implies #[trigger] all.contains(x) by {
                let j = choose|j: int| 0 <= j < items.len() && items[j] == x;
                lemma_push_contains(so_far, items.last(), x);
                if j < front.len() {
                    assert(front[j] == x);
                    assert(front.contains(x));
                    assert(so_far.contains(x));
                }
            }
        }
    } else {
        assert(taken.is_prefix_of(taken));
    }
}

/// The candidates are publishers with a record, none of them is there twice, and
/// there are at most `total_cap`. Where there are fewer, none is left out of the
/// `all_cap` that published last.
pub proof fn law_candidates(
    host: HostModel,
    country: Option<Seq<char>>,
    asn: Option<u32>,
    total_cap: nat,
    asn_cap: nat,
    country_cap: nat,
    all_cap: nat,
)
    requires
        host.wf(),
    ensures
        ({
            let found = host.candidates(country, asn, total_cap, asn_cap, country_cap, all_cap);
            &&& found.no_duplicates()
            &&& found.len() <= total_cap
            &&& forall|fp: Seq<u8>| #[trigger]
                found.contains(fp) ==> host.records.dom().contains(fp)
            &&& found.len() < total_cap ==> forall|fp: Seq<u8>| #[trigger]
                at_most(host.recent, least(all_cap, total_cap)).contains(fp) ==> found.contains(fp)
        }),
{
    let none = Seq::<Seq<u8>>::empty();
    let near_items = match asn {
        Some(asn) => at_most(host.in_asn(asn), least(asn_cap, total_cap)),
        None => none,
    };
    let near = push_unique(none, near_items, total_cap);
    let home_items = match country {
        Some(country) => at_most(host.in_country(country), least(country_cap, total_cap)),
        None => none,
    };
    let home = push_unique(near, home_items, total_cap);
    let all_items = at_most(host.recent, least(all_cap, total_cap));
    let found = push_unique(home, all_items, total_cap);
    lemma_push_unique(none, near_items, total_cap);
    lemma_push_unique(near, home_items, total_cap);
    lemma_push_unique(home, all_items, total_cap);
    assert(found == host.candidates(country, asn, total_cap, asn_cap, country_cap, all_cap));
    assert forall|fp: Seq<u8>| #[trigger] found.contains(fp) implies host.records.dom().contains(
        fp,
    ) by {
        if all_items.contains(fp) {
            let j = choose|j: int| 0 <= j < all_items.len() && all_items[j] == fp;
            assert(host.recent[j] == fp);
            assert(host.recent.to_set().contains(fp));
        } else {
            assert(home.contains(fp));
            if home_items.contains(fp) {
                let c = country->0;
                let j = choose|j: int| 0 <= j < home_items.len() && home_items[j] == fp;
                assert(host.in_country(c)[j] == fp);
                lemma_filter_no_duplicates(host.recent, tagged(country_of(host.records), c));
                assert(host.in_country(c).contains(fp));
            } else {
                assert(near.contains(fp));
                assert(near_items.contains(fp));
                let a = asn->0;
                let j = choose|j: int| 0 <= j < near_items.len() && near_items[j] == fp;
                assert(host.in_asn(a)[j] == fp);
                lemma_filter_no_duplicates(host.recent, tagged(asn_of(host.records), a));
                assert(host.in_asn(a).contains(fp));
            }
        }
    }
}

/// A publisher that publishes again has its new record alone.
pub proof fn law_republishing_replaces(
    host: HostModel,
    fp: Seq<u8>,
    first: RecordModel,
    second: RecordModel,
)
    ensures
        host.inserted(fp, first).inserted(fp, second) == host.inserted(fp, second),
{
    let once = host.inserted(fp, first);
    lemma_filter_front(fp, without(host.recent, fp), other_than(fp));
    lemma_filter_twice(host.recent, other_than(fp), other_than(fp), other_than(fp));
    assert(once.records.insert(fp, second) =~= host.records.insert(fp, second));
}

/// What one publisher does leaves the records of the others as they are, and their
/// order too.
pub proof fn law_publishers_are_independent(
    host: HostModel,
    fp: Seq<u8>,
    record: RecordModel,
    other: Seq<u8>,
)
    requires
        other != fp,
    ensures
        host.inserted(fp, record).records.dom().contains(other) == host.records.dom().contains(
            other,
        ),
        host.inserted(fp, record).records[other] == host.records[other],
        without(host.inserted(fp, record).recent, fp) == without(host.recent, fp),
        host.removed(fp).records.dom().contains(other) == host.records.dom().contains(other),
        host.removed(fp).records[other] == host.records[other],
        without(host.removed(fp).recent, fp) == without(host.recent, fp),
{
    lemma_filter_front(fp, without(host.recent, fp), other_than(fp));
    lemma_filter_twice(host.recent, other_than(fp), other_than(fp), other_than(fp));
}

/// Withdrawing what was just published leaves the host as withdrawing alone does,
/// and withdrawing twice is withdrawing once.
pub proof fn law_withdrawing_undoes_publishing(host: HostModel, fp: Seq<u8>, record: RecordModel)
    ensures
        host.inserted(fp, record).removed(fp) == host.removed(fp),
        host.removed(fp).removed(fp) == host.removed(fp),
{
    lemma_filter_front(fp, without(host.recent, fp), other_than(fp));
    lemma_filter_twice(host.recent, other_than(fp), other_than(fp), other_than(fp));
    assert(host.records.insert(fp, record).remove(fp) =~= host.records.remove(fp));
    assert(host.records.remove(fp).remove(fp) =~= host.records.remove(fp));
}

/// The records of all hosts and the hosts that are not looked up.
pub struct MemoryStorage {
    records: dashmap::DashMap<String, HostRecords>,
    blacklist: dashmap::DashSet<String>,
}

impl MemoryStorage {
    /// The records of each host that has some.
    pub closed spec fn hosts(self) -> Map<Seq<char>, HostRecords> {
        host_entries(self.records)
    }

    /// The hosts that are not looked up.
    pub closed spec fn blacklisted(self) -> Set<Seq<char>> {
        host_members(self.blacklist)
    }

    /// What is stored for a host.
    pub open spec fn host(self, host: Seq<char>) -> HostModel {
        if self.hosts().dom().contains(host) {
            self.hosts()[host]@
        } else {
            HostModel::empty()
        }
    }

    /// The records of every host are in order.
    pub open spec fn wf(self) -> bool {
        forall|host: Seq<char>| #[trigger]
            self.hosts().dom().contains(host) ==> self.hosts()[host].wf()
    }

    pub fn new() -> (r: Self)
        ensures
            r.wf(),
            r.hosts() == Map::<Seq<char>, HostRecords>::empty(),
            r.blacklisted() == Set::<Seq<char>>::empty(),
    {
        let storage = MemoryStorage { records: new_host_map(), blacklist: new_host_set() };
        assert(storage.hosts() =~= Map::<Seq<char>, HostRecords>::empty());
        storage
    }

    /// An empty storage in which these hosts are not looked up.
    pub fn with_blacklist(hosts: Vec<String>) -> (r: Self)
        ensures
            r.wf(),
            r.hosts() == Map::<Seq<char>, HostRecords>::empty(),
            r.blacklisted() == views(hosts@).to_set(),
    {
        let mut storage = Self::new();
        let ghost names = views(hosts@);
        let mut i: usize = 0;
        assert(names.take(0).to_set() =~= Set::<Seq<char>>::empty());
        while i < hosts.len()
            invariant
                i <= hosts@.len(),
                names == views(hosts@),
                storage.wf(),
                storage.hosts() == Map::<Seq<char>, HostRecords>::empty(),
                storage.blacklisted() == names.take(i as int).to_set(),
            decreases hosts@.len() - i,
        {
            proof {
                assert(names.take(i + 1) =~= names.take(i as int).push(hosts@[i as int]@));
                names.take(i as int).lemma_push_to_set_commute(hosts@[i as int]@);
            }
            storage.blacklist_host(hosts[i].clone());
            i = i + 1;
        }
        assert(names.take(i as int) =~= names);
        storage
    }

    pub fn blacklist_host(&mut self, host: String)
        requires
            old(self).wf(),
        ensures
            final(self).wf(),
            final(self).hosts() == old(self).hosts(),
            final(self).blacklisted() == old(self).blacklisted().insert(host@),
    {
        add_member(&mut self.blacklist, host);
        assert(forall|h: Seq<char>| #[trigger]
            self.hosts().dom().contains(h) ==> old(self).hosts().dom().contains(h));
    }

    pub fn remove_blacklist_host(&mut self, host: &str)
        requires
            old(self).wf(),
        ensures
            final(self).wf(),
            final(self).hosts() == old(self).hosts(),
            final(self).blacklisted() == old(self).blacklisted().remove(host@),
    {
        remove_member(&mut self.blacklist, host);
        assert(forall|h: Seq<char>| #[trigger]
            self.hosts().dom().contains(h) ==> old(self).hosts().dom().contains(h));
    }

    pub fn is_blacklisted(&self, host: &str) -> (r: bool)
        ensures
            r == self.blacklisted().contains(host@),
    {
        is_member(&self.blacklist, host)
    }

    /// Takes the records of a host out.
    pub(crate) fn take(&mut self, host: &str) -> (r: Option<HostRecords>)
        requires
            old(self).wf(),
        ensures
            final(self).wf(),
            final(self).hosts() == old(self).hosts().remove(host@),
            final(self).blacklisted() == old(self).blacklisted(),
            r is Some <==> old(self).hosts().dom().contains(host@),
            r is Some ==> r->0 == old(self).hosts()[host@] && (r->0).wf(),
    {
        let taken = take_host(&mut self.records, host);
        assert(forall|h: Seq<char>| #[trigger]
            self.hosts().dom().contains(h) ==> old(self).hosts().dom().contains(h));
        taken
    }

    /// Puts the records of a host in.
    pub(crate) fn put(&mut self, host: &str, records: HostRecords)
        requires
            old(self).wf(),
            records.wf(),
        ensures
            final(self).wf(),
            final(self).hosts() == old(self).hosts().insert(host@, records),
            final(self).blacklisted() == old(self).blacklisted(),
    {
        put_host(&mut self.records, host.to_owned(), records);
        assert(forall|h: Seq<char>| #[trigger]
            self.hosts().dom().contains(h) ==> h == host@ || old(self).hosts().dom().contains(h));
    }
}

/// What a record is kept as: when it expires, the fingerprint of its publisher, its signature
/// fields, its packet and its certificate, in this order.
pub proof fn law_stored_records_are_laid_out_in_order(record: StoredModel)
    requires
        record.fingerprint.len() == 32,
    ensures
        record.encoding().take(8) == be_bytes8(record.expire_unix_secs),
        record.encoding().subrange(8, 40) == record.fingerprint,
        record.encoding().skip(40) == field_encoding(record.signature_fields.content_digest)
            + field_encoding(record.signature_fields.signature_input) + field_encoding(
            record.signature_fields.signature,
        ) + field_encoding(record.dns) + field_encoding(record.cert),
{
    lemma_stored_fields(record);
    let all = record.encoding();
    assert(all.take(8) =~= be_bytes8(record.expire_unix_secs));
    assert(all.subrange(8, 40) =~= record.fingerprint);
    assert(all.skip(40) =~= fields_encoding(record.fields()));
}

/// The keys of one host are told apart from each other: the record of a publisher, the index
/// of all, that of a country and that of an autonomous system.
pub proof fn law_keys_of_a_host_are_told_apart(
    host: Seq<char>,
    fingerprint: Seq<char>,
    other: Seq<char>,
    country: Seq<char>,
    land: Seq<char>,
    asn: u32,
    net: u32,
)
    ensures
        primary_key(host, fingerprint) == primary_key(host, other) ==> fingerprint == other,
        country_key(host, country) == country_key(host, land) ==> country == land,
        asn_key(host, asn) == asn_key(host, net) ==> asn == net,
        primary_key(host, fingerprint) != all_key(host),
        primary_key(host, fingerprint) != country_key(host, country),
        primary_key(host, fingerprint) != asn_key(host, asn),
        all_key(host) != country_key(host, country),
        all_key(host) != asn_key(host, asn),
        country_key(host, country) != asn_key(host, asn),
        host.is_prefix_of(primary_key(host, fingerprint)),
        host.is_prefix_of(all_key(host)),
        host.is_prefix_of(country_key(host, country)),
        host.is_prefix_of(asn_key(host, asn)),
{
    reveal_strlit(":fp:");
    reveal_strlit(":idx:all");
    reveal_strlit(":idx:country:");
    reveal_strlit(":idx:asn:");
    let n = host.len() as int;
    assert(primary_key(host, fingerprint).skip(n + 4) =~= fingerprint);
    assert(primary_key(host, other).skip(n + 4) =~= other);
    assert(country_key(host, country).skip(n + 13) =~= country);
    assert(country_key(host, land).skip(n + 13) =~= land);
    assert(asn_key(host, asn).skip(n + 9) =~= decimal(asn as nat));
    assert(asn_key(host, net).skip(n + 9) =~= decimal(net as nat));
    lemma_decimal_reads_back(asn as nat, u32::MAX as nat);
    lemma_decimal_reads_back(net as nat, u32::MAX as nat);
    assert(primary_key(host, fingerprint)[n + 1] == 'f');
    assert(all_key(host)[n + 1] == 'i');
    assert(country_key(host, country)[n + 1] == 'i');
    assert(asn_key(host, asn)[n + 1] == 'i');
    assert(all_key(host)[n + 6] == 'l');
    assert(country_key(host, country)[n + 6] == 'o');
    assert(asn_key(host, asn)[n + 6] == 's');
    assert(primary_key(host, fingerprint).take(n) =~= host);
    assert(all_key(host).take(n) =~= host);
    assert(country_key(host, country).take(n) =~= host);
    assert(asn_key(host, asn).take(n) =~= host);
}

/// The records that are active are those that expire later than now, unchanged, and their
/// publishers stay in order.
pub proof fn law_active_records_are_those_that_expire_later(
    host: HostModel,
    fp: Seq<u8>,
    now: u128,
)
    ensures
        host.active(now).records.dom().contains(fp) <==> host.records.dom().contains(fp)
            && host.records[fp].expire > now,
        host.active(now).records.dom().contains(fp) ==> host.active(now).records[fp]
            == host.records[fp],
        ({
            let longer = HostModel { records: host.records, recent: seq![fp] + host.recent };
            let alive = host.records.dom().contains(fp) && host.records[fp].expire > now;
            &&& alive ==> longer.active(now).recent == seq![fp] + host.active(now).recent
            &&& !alive ==> longer.active(now).recent == host.active(now).recent
        }),
        host.recent.len() == 0 ==> host.active(now).recent.len() == 0,
{
    let longer = HostModel { records: host.records, recent: seq![fp] + host.recent };
    lemma_filter_front(fp, host.recent, host.is_active(now));
    assert(longer.is_active(now) =~= host.is_active(now));
    if host.recent.len() == 0 {
        reveal(Seq::filter);
    }
}

/// The publishers of a country, or of an autonomous system, are those with a record that is
/// tagged with it, and they stay in order.
pub proof fn law_publishers_are_found_by_their_tags(
    host: HostModel,
    fp: Seq<u8>,
    country: Seq<char>,
    asn: u32,
)
    ensures
        ({
            let longer = HostModel { records: host.records, recent: seq![fp] + host.recent };
            let known = host.records.dom().contains(fp);
            let there = known && host.records[fp].countries.contains(country);
            let near = known && host.records[fp].asns.contains(asn);
            &&& there ==> longer.in_country(country) == seq![fp] + host.in_country(country)
            &&& !there ==> longer.in_country(country) == host.in_country(country)
            &&& near ==> longer.in_asn(asn) == seq![fp] + host.in_asn(asn)
            &&& !near ==> longer.in_asn(asn) == host.in_asn(asn)
        }),
        host.recent.len() == 0 ==> host.in_country(country).len() == 0,
        host.recent.len() == 0 ==> host.in_asn(asn).len() == 0,
{
    lemma_filter_front(fp, host.recent, tagged(country_of(host.records), country));
    lemma_filter_front(fp, host.recent, tagged(asn_of(host.records), asn));
    if host.recent.len() == 0 {
        reveal(Seq::filter);
    }
}

/// Whoever published last comes first, and the others stay in order.
pub proof fn law_the_last_publisher_comes_first(
    host: HostModel,
    fp: Seq<u8>,
    record: RecordModel,
    i: int,
)
    requires
        host.wf(),
    ensures
        host.inserted(fp, record).recent[0] == fp,
        host.inserted(fp, record).records[fp] == record,
        !host.records.dom().contains(fp) ==> host.inserted(fp, record).recent == seq![fp]
            + host.recent,
        !host.removed(fp).records.dom().contains(fp),
        !host.removed(fp).recent.contains(fp),
        0 <= i < host.recent.len() && host.recent[i] == fp ==> host.removed(fp).recent
            == host.recent.remove(i),
        0 <= i < host.recent.len() && host.recent[i] == fp ==> host.inserted(fp, record).recent
            == seq![fp] + host.recent.remove(i),
{
    lemma_without_members(host.recent, fp);
    if !host.records.dom().contains(fp) {
        assert(!host.recent.to_set().contains(fp));
        lemma_without_absent(host.recent, fp);
    }
    if 0 <= i < host.recent.len() && host.recent[i] == fp {
        lemma_without_one(host.recent, i);
    }
}

proof fn lemma_without_one(recent: Seq<Seq<u8>>, i: int)
    requires
        recent.no_duplicates(),
        0 <= i < recent.len(),
    ensures
        without(recent, recent[i]) == recent.remove(i),
    decreases recent.len(),
{
    let first = recent[0];
    let rest = recent.skip(1);
    let fp = recent[i];
    assert(recent =~= seq![first] + rest);
    lemma_filter_front(first, rest, other_than(fp));
    if i == 0 {
        assert(!rest.contains(fp)) by {
            if rest.contains(fp) {
                let k = rest.index_of(fp);
                assert(recent[k + 1] == fp);
            }
        }
        lemma_without_absent(rest, fp);
        assert(recent.remove(0) =~= rest);
    } else {
        assert(first != fp);
        assert(rest[i - 1] == fp);
        assert(rest.no_duplicates()) by {
            assert forall|a: int, b: int| 0 <= a < rest.len() && 0 <= b < rest.len() && a
                != b implies rest[a] != rest[b] by {
                assert(recent[a + 1] != recent[b + 1]);
            }
        }
        lemma_without_one(rest, i - 1);
        assert(recent.remove(i) =~= seq![first] + rest.remove(i - 1));
    }
}

/// What is there already, and what there is no room for, is not taken; everything else is
/// taken, in its order.
pub proof fn law_items_are_taken_once_while_there_is_room<A>(
    taken: Seq<A>,
    items: Seq<A>,
    more: Seq<A>,
    item: A,
    total: nat,
)
    ensures
        push_unique(taken, items + more, total) == push_unique(
            push_unique(taken, items, total),
            more,
            total,
        ),
        taken.len() < total && !taken.contains(item) ==> push_unique(taken, seq![item], total)
            == taken.push(item),
        taken.len() >= total || taken.contains(item) ==> push_unique(taken, seq![item], total)
            == taken,
        push_unique(taken, Seq::<A>::empty(), total) == taken,
    decreases more.len(),
{
    if more.len() > 0 {
        law_items_are_taken_once_while_there_is_room(taken, items, more.drop_last(), item, total);
        assert((items + more).drop_last() =~= items + more.drop_last());
        assert((items + more).last() == more.last());
    } else {
        assert(items + more =~= items);
    }
    reveal_with_fuel(push_unique, 2);
    assert(seq![item].drop_last() =~= Seq::<A>::empty());
    assert(seq![item].last() == item);
}

/// Of items, no more than a number are left, and they are the first ones.
pub proof fn law_the_first_items_are_left<A>(items: Seq<A>, n: nat)
    ensures
        at_most(items, n).len() <= n,
        at_most(items, n).len() <= items.len(),
        at_most(items, n).len() == n || at_most(items, n).len() == items.len(),
        forall|i: int| 0 <= i < at_most(items, n).len() ==> #[trigger] at_most(items, n)[i]
            == items[i],
{
}

proof fn lemma_room_for_all<A>(taken: Seq<A>, items: Seq<A>, total: nat)
    requires
        taken.len() + items.len() <= total,
    ensures
        push_unique(taken, items, total).len() <= taken.len() + items.len(),
        forall|x: A| #[trigger]
            push_unique(taken, items, total).contains(x) <==> taken.contains(x) || items.contains(x),
        taken.is_prefix_of(push_unique(taken, items, total)),
    decreases items.len(),
{
    if items.len() > 0 {
        let front = items.drop_last();
        lemma_room_for_all(taken, front, total);
        let so_far = push_unique(taken, front, total);
        assert(items =~= front.push(items.last()));
        assert forall|x: A| #[trigger] push_unique(taken, items, total).contains(x) <==> (
        taken.contains(x) || items.contains(x)) by {
            lemma_push_contains(so_far, items.last(), x);
            lemma_push_contains(front, items.last(), x);
        }
    }
}

proof fn lemma_all_new<A>(items: Seq<A>, total: nat)
    requires
        items.no_duplicates(),
        items.len() <= total,
    ensures
        push_unique(Seq::<A>::empty(), items, total) == items,
    decreases items.len(),
{
    if items.len() > 0 {
        let front = items.drop_last();
        lemma_all_new(front, total);
        if front.contains(items.last()) {
            let k = front.index_of(items.last());
            assert(items[k] == items[items.len() - 1]);
        }
        assert(front.push(items.last()) =~= items);
    } else {
        assert(items =~= Seq::<A>::empty());
    }
}

/// Whether a publisher is among the first ones of a list.
pub open spec fn among_first(fp: Seq<u8>, list: Seq<Seq<u8>>, n: nat) -> bool {
    exists|i: int| 0 <= i < list.len() && i < n && #[trigger] list[i] == fp
}

proof fn lemma_among_first(fp: Seq<u8>, list: Seq<Seq<u8>>, n: nat, total: nat)
    requires
        n <= total,
    ensures
        at_most(list, least(n, total)).contains(fp) <==> among_first(fp, list, n),
        at_most(list, least(n, total)).len() <= n,
{
    let part = at_most(list, least(n, total));
    if part.contains(fp) {
        let i = part.index_of(fp);
        assert(list[i] == fp);
    }
    if among_first(fp, list, n) {
        let i = choose|i: int| 0 <= i < list.len() && i < n && #[trigger] list[i] == fp;
        assert(part[i] == fp);
    }
}

/// Where there is room for all of them, a lookup considers the first publishers of the
/// autonomous system of the client, the first ones of its country and the first ones of all,
/// and no others. Those of its system come first, then those of its country.
pub proof fn law_near_publishers_are_considered_first(
    host: HostModel,
    country: Seq<char>,
    asn: u32,
    total_cap: nat,
    asn_cap: nat,
    country_cap: nat,
    all_cap: nat,
    fp: Seq<u8>,
    i: int,
    j: int,
)
    requires
        asn_cap + country_cap + all_cap <= total_cap,
    ensures
        ({
            let found = host.candidates(
                Some(country),
                Some(asn),
                total_cap,
                asn_cap,
                country_cap,
                all_cap,
            );
            &&& found.contains(fp) <==> among_first(fp, host.in_asn(asn), asn_cap) || among_first(
                fp,
                host.in_country(country),
                country_cap,
            ) || among_first(fp, host.recent, all_cap)
            &&& 0 <= i < found.len() && 0 <= j < found.len() && among_first(
                found[i],
                host.in_asn(asn),
                asn_cap,
            ) && !among_first(found[j], host.in_asn(asn), asn_cap) && host.recent.no_duplicates()
                ==> i < j
            &&& 0 <= i < found.len() && 0 <= j < found.len() && among_first(
                found[i],
                host.in_country(country),
                country_cap,
            ) && !among_first(found[j], host.in_asn(asn), asn_cap) && !among_first(
                found[j],
                host.in_country(country),
                country_cap,
            ) && host.recent.no_duplicates() ==> i < j
        }),
{
    let none = Seq::<Seq<u8>>::empty();
    let near_items = at_most(host.in_asn(asn), least(asn_cap, total_cap));
    let near = push_unique(none, near_items, total_cap);
    let home_items = at_most(host.in_country(country), least(country_cap, total_cap));
    let home = push_unique(near, home_items, total_cap);
    let all_items = at_most(host.recent, least(all_cap, total_cap));
    let found = push_unique(home, all_items, total_cap);
    lemma_among_first(fp, host.in_asn(asn), asn_cap, total_cap);
    lemma_among_first(fp, host.in_country(country), country_cap, total_cap);
    lemma_among_first(fp, host.recent, all_cap, total_cap);
    lemma_room_for_all(none, near_items, total_cap);
    lemma_room_for_all(near, home_items, total_cap);
    lemma_room_for_all(home, all_items, total_cap);
    lemma_push_unique(none, near_items, total_cap);
    lemma_push_unique(near, home_items, total_cap);
    lemma_push_unique(home, all_items, total_cap);
    assert(found == host.candidates(
        Some(country),
        Some(asn),
        total_cap,
        asn_cap,
        country_cap,
        all_cap,
    ));
    if 0 <= i < found.len() && 0 <= j < found.len() {
        lemma_among_first(found[i], host.in_asn(asn), asn_cap, total_cap);
        lemma_among_first(found[j], host.in_asn(asn), asn_cap, total_cap);
        lemma_among_first(found[i], host.in_country(country), country_cap, total_cap);
        lemma_among_first(found[j], host.in_country(country), country_cap, total_cap);
        assert(near.is_prefix_of(found)) by {
            assert(near =~= home.take(near.len() as int));
            assert(home =~= found.take(home.len() as int));
            assert(near =~= found.take(near.len() as int));
        }
        lemma_prefix_members(near, found, i, j);
        lemma_prefix_members(home, found, i, j);
    }
}

proof fn lemma_prefix_members(front: Seq<Seq<u8>>, all: Seq<Seq<u8>>, i: int, j: int)
    requires
        front.is_prefix_of(all),
        all.no_duplicates(),
        0 <= i < all.len(),
        0 <= j < all.len(),
    ensures
        front.contains(all[i]) && !front.contains(all[j]) ==> i < j,
{
    if front.contains(all[i]) && !front.contains(all[j]) {
        let k = front.index_of(all[i]);
        assert(all[k] == front[k]);
        assert(k == i);
        if j < front.len() {
            assert(front[j] == all[j]);
        }
    }
}

/// For a client whose place is not known, the publishers are considered in order, from the
/// last one that published on, as many as there is room for.
pub proof fn law_the_last_publishers_are_considered_for_unknown_clients(
    host: HostModel,
    total_cap: nat,
    asn_cap: nat,
    country_cap: nat,
    all_cap: nat,
    i: int,
)
    requires
        host.wf(),
    ensures
        ({
            let found = host.candidates(None, None, total_cap, asn_cap, country_cap, all_cap);
            &&& found.len() <= host.recent.len()
            &&& found.len() <= total_cap
            &&& found.len() <= all_cap
            &&& found.len() == host.recent.len() || found.len() == total_cap || found.len()
                == all_cap
            &&& 0 <= i < found.len() ==> found[i] == host.recent[i]
        }),
{
    let items = at_most(host.recent, least(all_cap, total_cap));
    assert(items.no_duplicates()) by {
        assert forall|a: int, b: int| 0 <= a < items.len() && 0 <= b < items.len() && a
            != b implies items[a] != items[b] by {
            assert(host.recent[a] != host.recent[b]);
        }
    }
    lemma_all_new(items, total_cap);
}

/// The publishers of the autonomous system of the client are considered in order, before all
/// others.
pub proof fn law_publishers_of_the_system_are_considered_in_order(
    host: HostModel,
    country: Option<Seq<char>>,
    asn: u32,
    total_cap: nat,
    asn_cap: nat,
    country_cap: nat,
    all_cap: nat,
    i: int,
)
    requires
        host.wf(),
        0 <= i < host.in_asn(asn).len(),
        i < asn_cap,
        i < total_cap,
    ensures
        ({
            let found = host.candidates(
                country,
                Some(asn),
                total_cap,
                asn_cap,
                country_cap,
                all_cap,
            );
            i < found.len() && found[i] == host.in_asn(asn)[i]
        }),
{
    let none = Seq::<Seq<u8>>::empty();
    let near_items = at_most(host.in_asn(asn), least(asn_cap, total_cap));
    lemma_filter_no_duplicates(host.recent, tagged(asn_of(host.records), asn));
    assert(near_items.no_duplicates()) by {
        assert forall|a: int, b: int| 0 <= a < near_items.len() && 0 <= b < near_items.len() && a
            != b implies near_items[a] != near_items[b] by {
            assert(host.in_asn(asn)[a] != host.in_asn(asn)[b]);
        }
    }
    lemma_all_new(near_items, total_cap);
    let home = match country {
        Some(country) => push_unique(
            near_items,
            at_most(host.in_country(country), least(country_cap, total_cap)),
            total_cap,
        ),
        None => near_items,
    };
    let all_items = at_most(host.recent, least(all_cap, total_cap));
    if let Some(country) = country {
        lemma_push_unique(
            near_items,
            at_most(host.in_country(country), least(country_cap, total_cap)),
            total_cap,
        );
    }
    lemma_push_unique(home, all_items, total_cap);
    let found = push_unique(home, all_items, total_cap);
    assert(home[i] == near_items[i]) by {
        assert(near_items =~= home.take(near_items.len() as int));
    }
    assert(found[i] == home[i]) by {
        assert(home =~= found.take(home.len() as int));
    }
}

/// The publishers of the country of the client are considered in order, before all others,
/// where its autonomous system is not known.
pub proof fn law_publishers_of_the_country_are_considered_in_order(
    host: HostModel,
    country: Seq<char>,
    total_cap: nat,
    asn_cap: nat,
    country_cap: nat,
    all_cap: nat,
    i: int,
)
    requires
        host.wf(),
        0 <= i < host.in_country(country).len(),
        i < country_cap,
        i < total_cap,
    ensures
        ({
            let found = host.candidates(
                Some(country),
                None,
                total_cap,
                asn_cap,
                country_cap,
                all_cap,
            );
            i < found.len() && found[i] == host.in_country(country)[i]
        }),
{
    let home_items = at_most(host.in_country(country), least(country_cap, total_cap));
    lemma_filter_no_duplicates(host.recent, tagged(country_of(host.records), country));
    assert(home_items.no_duplicates()) by {
        assert forall|a: int, b: int| 0 <= a < home_items.len() && 0 <= b < home_items.len() && a
            != b implies home_items[a] != home_items[b] by {
            assert(host.in_country(country)[a] != host.in_country(country)[b]);
        }
    }
    lemma_all_new(home_items, total_cap);
    let all_items = at_most(host.recent, least(all_cap, total_cap));
    lemma_push_unique(home_items, all_items, total_cap);
    let found = push_unique(home_items, all_items, total_cap);
    assert(found[i] == home_items[i]) by {
        assert(home_items =~= found.take(home_items.len() as int));
    }
}

/// Records that are active are still well kept.
pub proof fn lemma_active_is_well_kept(host: HostModel, now: u128)
    requires
        host.wf(),
    ensures
        host.active(now).wf(),
{
    let active = host.active(now);
    lemma_filter_no_duplicates(host.recent, host.is_active(now));
    assert(active.recent.to_set() =~= active.records.dom()) by {
        assert forall|fp: Seq<u8>| active.recent.to_set().contains(fp)
            <==> active.records.dom().contains(fp) by {
            assert(active.recent.contains(fp) <==> host.recent.contains(fp) && host.is_active(
                now,
            )(fp));
            assert(host.recent.to_set().contains(fp) <==> host.records.dom().contains(fp));
        }
    }
}

/// A record holds what it is made of, stored or not.
pub proof fn law_records_hold_what_they_are_made_of(record: Record, stored: StoredRecord)
    ensures
        record@.dns == record.dns_bytes@,
        record@.cert == record.cert_bytes@,
        record@.expire == record.expire,
        record@.asns == record.index_tags.asns@,
        record@.signature_fields == record.signature_fields@,
        stored@.dns == stored.dns@,
        stored@.cert == stored.cert@,
        stored@.expire_unix_secs == stored.expire_unix_secs,
        stored@.fingerprint == stored.fingerprint@,
        stored@.signature_fields == stored.signature_fields@,
{
}

} // verus!
