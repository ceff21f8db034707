//! The multi-record response format that servers send and clients read.
//!
//! A response is a big-endian 32-bit record count followed by the records. A
//! record is five fields: the three signature fields, the DNS packet and the
//! publisher certificate. A field is a big-endian 32-bit length followed by that
//! many bytes.
use vstd::prelude::*;

use crate::protocol::signature::{SignatureFields, SignatureFieldsModel};
use crate::foreign::{
    certificate_chain, digestible, put_slice, put_u32, read_certificate_chain, sha256,
    sha256_digest,
};
use crate::protocol::certificate::{
    lemma_numbered, lemma_sequence_by_number, CertificateChainKey, CertificateSequence,
};
use crate::text::{hex, hex_string};

verus! {

/// The views of the elements of a sequence.
pub open spec fn views<T: View>(s: Seq<T>) -> Seq<T::V> {
    s.map_values(|t: T| t@)
}

/// The four bytes of a number, the most significant first.
pub open spec fn be_bytes4(n: u32) -> Seq<u8> {
    seq![
        (n / 0x100_0000) as u8,
        (n / 0x1_0000 % 0x100) as u8,
        (n / 0x100 % 0x100) as u8,
        (n % 0x100) as u8,
    ]
}

/// The number that four bytes stand for, the most significant first.
#[verifier::opaque]
pub open spec fn be_value4(b: Seq<u8>) -> nat {
    (b[0] * 0x100_0000 + b[1] * 0x1_0000 + b[2] * 0x100 + b[3]) as nat
}

/// The eight bytes of a number, the most significant first.
pub open spec fn be_bytes8(n: u64) -> Seq<u8> {
    be_bytes4((n / 0x1_0000_0000) as u32) + be_bytes4((n % 0x1_0000_0000) as u32)
}

/// A field: its length and its bytes.
pub open spec fn field_encoding(value: Seq<u8>) -> Seq<u8> {
    be_bytes4(value.len() as u32) + value
}

/// One DNS packet with the certificate and the signature of its publisher.
#[derive(Debug, PartialEq, Eq)]
pub struct ResponseRecord {
    /// The publisher signature. Empty for a record that nobody signed.
    pub signature_fields: SignatureFields,
    /// The encoded DNS packet.
    pub dns: Vec<u8>,
    /// The DER encoded leaf certificate of the publisher, or nothing.
    pub cert: Vec<u8>,
}

/// The certificate chain that a certificate names, where it names one.
pub open spec fn publisher_chain(cert: Seq<u8>) -> Option<CertificateChainKey> {
    match certificate_chain(cert) {
        Some((sequence, kind)) => Some(
            CertificateChainKey { sequence: CertificateSequence::numbered(sequence), kind },
        ),
        None => None,
    }
}

/// The contents of a [`ResponseRecord`].
pub struct ResponseRecordModel {
    pub signature_fields: SignatureFieldsModel,
    pub dns: Seq<u8>,
    pub cert: Seq<u8>,
}

impl View for ResponseRecord {
    type V = ResponseRecordModel;

    open spec fn view(&self) -> ResponseRecordModel {
        ResponseRecordModel {
            signature_fields: self.signature_fields@,
            dns: self.dns@,
            cert: self.cert@,
        }
    }
}

impl Clone for ResponseRecord {
    fn clone(&self) -> (r: Self)
        ensures
            r@ == self@,
    {
        ResponseRecord {
            signature_fields: self.signature_fields.clone(),
            dns: vstd::slice::slice_to_vec(self.dns.as_slice()),
            cert: vstd::slice::slice_to_vec(self.cert.as_slice()),
        }
    }
}

/// The five fields of a record one behind the other.
pub open spec fn record_encoding(r: ResponseRecordModel) -> Seq<u8> {
    field_encoding(r.signature_fields.content_digest) + field_encoding(
        r.signature_fields.signature_input,
    ) + field_encoding(r.signature_fields.signature) + field_encoding(r.dns) + field_encoding(
        r.cert,
    )
}

/// The records one behind the other.
pub open spec fn records_encoding(records: Seq<ResponseRecordModel>) -> Seq<u8>
    decreases records.len(),
{
    if records.len() == 0 {
        Seq::empty()
    } else {
        records_encoding(records.drop_last()) + record_encoding(records.last())
    }
}

/// The record count and the records.
pub open spec fn response_encoding(records: Seq<ResponseRecordModel>) -> Seq<u8> {
    be_bytes4(records.len() as u32) + records_encoding(records)
}

/// The certificate chain that a certificate names.
pub fn certificate_chain_key(cert: &[u8]) -> (r: Option<CertificateChainKey>)
    ensures
        r == publisher_chain(cert@),
{
    match read_certificate_chain(cert) {
        Some((sequence, kind)) => match CertificateSequence::new(sequence as u64) {
            Some(sequence) => {
                proof {
                    lemma_sequence_by_number(
                        sequence,
                        CertificateSequence::numbered(sequence.number()),
                    );
                }
                Some(CertificateChainKey::new(sequence, kind))
            },
            None => None,
        },
        None => None,
    }
}

impl ResponseRecord {
    pub fn new(signature_fields: SignatureFields, dns: Vec<u8>, cert: Vec<u8>) -> (r: Self)
        ensures
            r@ == (ResponseRecordModel {
                signature_fields: signature_fields@,
                dns: dns@,
                cert: cert@,
            }),
    {
        ResponseRecord { signature_fields, dns, cert }
    }

    /// A record without a signature.
    pub fn unsigned(dns: Vec<u8>, cert: Vec<u8>) -> (r: Self)
        ensures
            r@ == (ResponseRecordModel {
                signature_fields: SignatureFieldsModel::unsigned(),
                dns: dns@,
                cert: cert@,
            }),
    {
        Self::new(SignatureFields::empty(), dns, cert)
    }

    /// The certificate chain that the certificate of the publisher names.
    pub fn publisher_certificate_chain_key(&self) -> (r: Option<CertificateChainKey>)
        ensures
            r == publisher_chain(self.cert@),
    {
        certificate_chain_key(self.cert.as_slice())
    }

    /// The SHA-256 fingerprint of the publisher certificate in lowercase
    /// hexadecimal, or `None` where the record has no certificate.
    pub fn cert_fingerprint_hex(&self) -> (r: Option<String>)
        requires
            digestible(self.cert@),
        ensures
            r is None <==> self.cert@.len() == 0,
            r is Some ==> (r->0)@ == hex(sha256(self.cert@)),
    {
        if self.cert.is_empty() {
            return None;
        }
        let digest = sha256_digest(self.cert.as_slice());
        Some(hex_string(digest.as_slice()))
    }
}

/// A response with any number of records.
#[derive(Debug, PartialEq, Eq)]
pub struct MultiResponse {
    pub records: Vec<ResponseRecord>,
}

impl View for MultiResponse {
    type V = Seq<ResponseRecordModel>;

    open spec fn view(&self) -> Seq<ResponseRecordModel> {
        views(self.records@)
    }
}

pub proof fn lemma_views_push<T: View>(s: Seq<T>, x: T)
    ensures
        views(s.push(x)) == views(s).push(x@),
{
    assert(views(s.push(x)) =~= views(s).push(x@));
}

pub proof fn lemma_views_take<T: View>(s: Seq<T>, n: int)
    requires
        0 <= n < s.len(),
    ensures
        views(s).take(n + 1) == views(s).take(n).push(s[n]@),
        views(s).take(n + 1).drop_last() == views(s).take(n),
{
    assert(views(s).take(n + 1) =~= views(s).take(n).push(s[n]@));
    assert(views(s).take(n + 1).drop_last() =~= views(s).take(n));
}

proof fn lemma_records_encoding_grows(records: Seq<ResponseRecordModel>, n: int)
    requires
        0 <= n <= records.len(),
    ensures
        records_encoding(records.take(n)).len() <= records_encoding(records).len(),
    decreases records.len() - n,
{
    if n < records.len() {
        lemma_records_encoding_grows(records, n + 1);
        assert(records.take(n + 1).drop_last() == records.take(n));
    } else {
        assert(records.take(n) == records);
    }
}

proof fn lemma_record_encoding_len(r: ResponseRecordModel)
    ensures
        record_encoding(r).len() == 20 + r.signature_fields.content_digest.len()
            + r.signature_fields.signature_input.len() + r.signature_fields.signature.len()
            + r.dns.len() + r.cert.len(),
{
}

impl MultiResponse {
    pub fn new(records: Vec<ResponseRecord>) -> (r: Self)
        ensures
            r@ == views(records@),
    {
        MultiResponse { records }
    }

    /// The length of the encoded response.
    pub fn encoding_size(&self) -> (r: usize)
        requires
            response_encoding(self@).len() <= usize::MAX,
        ensures
            r == response_encoding(self@).len(),
    {
        let mut size: usize = 4;
        let mut i: usize = 0;
        while i < self.records.len()
            invariant
                i <= self.records@.len(),
                size == 4 + records_encoding(self@.take(i as int)).len(),
                response_encoding(self@).len() <= usize::MAX,
            decreases self.records@.len() - i,
        {
            let record = &self.records[i];
            proof {
                lemma_views_take(self.records@, i as int);
                lemma_records_encoding_grows(self@, i + 1);
                lemma_record_encoding_len(record@);
                assert(records_encoding(self@.take(i + 1)).len() == records_encoding(
                    self@.take(i as int),
                ).len() + record_encoding(record@).len());
                assert(4 + records_encoding(self@.take(i + 1)).len() <= usize::MAX);
            }
            size = size + 4 + record.signature_fields.content_digest.len() + 4
                + record.signature_fields.signature_input.len() + 4
                + record.signature_fields.signature.len() + 4 + record.dns.len() + 4
                + record.cert.len();
            i = i + 1;
        }
        assert(self@.take(i as int) == self@);
        size
    }

    /// The encoded response.
    pub fn encode(&self) -> (r: Vec<u8>)
        requires
            response_encoding(self@).len() <= isize::MAX,
        ensures
            r@ == response_encoding(self@),
    {
        let mut buf: Vec<u8> = Vec::with_capacity(self.encoding_size());
        buf.put_multi_response(self);
        assert(buf@ == response_encoding(self@));
        buf
    }
}

/// A sink for encoded responses.
pub trait WriteMultiResponse {
    /// What has been written so far.
    spec fn written(&self) -> Seq<u8>;

    /// Writes a response behind what has been written.
    fn put_multi_response(&mut self, response: &MultiResponse)
        requires
            old(self).written().len() + response_encoding(response@).len() <= isize::MAX,
        ensures
            final(self).written() == old(self).written() + response_encoding(response@),
    ;
}

impl WriteMultiResponse for Vec<u8> {
    open spec fn written(&self) -> Seq<u8> {
        self@
    }

    fn put_multi_response(&mut self, response: &MultiResponse) {
        let ghost start = self@;
        put_u32(self, response.records.len() as u32);
        let mut i: usize = 0;
        while i < response.records.len()
            invariant
                i <= response.records@.len(),
                start.len() + response_encoding(response@).len() <= isize::MAX,
                self@ == start + be_bytes4(response@.len() as u32) + records_encoding(
                    response@.take(i as int),
                ),
            decreases response.records@.len() - i,
        {
            let record = &response.records[i];
            let ghost before = self@;
            proof {
                lemma_views_take(response.records@, i as int);
                lemma_records_encoding_grows(response@, i + 1);
            }
            put_field(self, record.signature_fields.content_digest.as_slice());
            put_field(self, record.signature_fields.signature_input.as_slice());
            put_field(self, record.signature_fields.signature.as_slice());
            put_field(self, record.dns.as_slice());
            put_field(self, record.cert.as_slice());
            assert(self@ == before + record_encoding(record@));
            i = i + 1;
            assert(self@ == start + be_bytes4(response@.len() as u32) + records_encoding(
                response@.take(i as int),
            ));
        }
        assert(response@.take(i as int) == response@);
        assert(self@ == start + response_encoding(response@));
    }
}

/// Appends a field.
pub(crate) fn put_field(buf: &mut Vec<u8>, value: &[u8])
    requires
        old(buf)@.len() + field_encoding(value@).len() <= isize::MAX,
    ensures
        final(buf)@ == old(buf)@ + field_encoding(value@),
{
    put_u32(buf, value.len() as u32);
    put_slice(buf, value);
    assert(buf@ == old(buf)@ + field_encoding(value@));
}

/// The input ended early: at least `needed` more bytes would have followed.
#[derive(Debug, Clone, Copy, PartialEq, Eq)]
pub struct Incomplete {
    pub needed: usize,
}

/// A value read from the front of an input and what follows it, or the number of
/// bytes that were missing.
pub type Parsed<T> = Result<(T, Seq<u8>), nat>;

/// Reads a 32-bit number.
pub open spec fn read_u32(input: Seq<u8>) -> Parsed<nat> {
    if input.len() < 4 {
        Err((4 - input.len()) as nat)
    } else {
        Ok((be_value4(input), input.skip(4)))
    }
}

/// Reads a field.
pub open spec fn read_field(input: Seq<u8>) -> Parsed<Seq<u8>> {
    match read_u32(input) {
        Err(needed) => Err(needed),
        Ok((len, rest)) => if rest.len() < len {
            Err((len - rest.len()) as nat)
        } else {
            Ok((rest.take(len as int), rest.skip(len as int)))
        },
    }
}

/// Reads `n` fields.
pub open spec fn read_fields(input: Seq<u8>, n: nat) -> Parsed<Seq<Seq<u8>>>
    decreases n,
{
    if n == 0 {
        Ok((Seq::empty(), input))
    } else {
        match read_fields(input, (n - 1) as nat) {
            Err(needed) => Err(needed),
            Ok((fields, rest)) => match read_field(rest) {
                Err(needed) => Err(needed),
                Ok((field, rest)) => Ok((fields.push(field), rest)),
            },
        }
    }
}

/// Reads a record.
pub open spec fn read_record(input: Seq<u8>) -> Parsed<ResponseRecordModel> {
    match read_fields(input, 5) {
        Err(needed) => Err(needed),
        Ok((f, rest)) => Ok(
            (
                ResponseRecordModel {
                    signature_fields: SignatureFieldsModel {
                        content_digest: f[0],
                        signature_input: f[1],
                        signature: f[2],
                    },
                    dns: f[3],
                    cert: f[4],
                },
                rest,
            ),
        ),
    }
}

/// Reads `n` records.
pub open spec fn read_records(input: Seq<u8>, n: nat) -> Parsed<Seq<ResponseRecordModel>>
    decreases n,
{
    if n == 0 {
        Ok((Seq::empty(), input))
    } else {
        match read_records(input, (n - 1) as nat) {
            Err(needed) => Err(needed),
            Ok((records, rest)) => match read_record(rest) {
                Err(needed) => Err(needed),
                Ok((record, rest)) => Ok((records.push(record), rest)),
            },
        }
    }
}

/// Reads a response.
pub open spec fn read_response(input: Seq<u8>) -> Parsed<Seq<ResponseRecordModel>> {
    match read_u32(input) {
        Err(needed) => Err(needed),
        Ok((count, rest)) => read_records(rest, count),
    }
}

/// Reads a 32-bit number.
pub(crate) fn be_u32(input: &[u8]) -> (r: Result<(&[u8], u32), Incomplete>)
    ensures
        match r {
            Ok((rest, value)) => read_u32(input@) == Ok::<_, nat>((value as nat, rest@)),
            Err(e) => read_u32(input@) == Err::<(nat, Seq<u8>), nat>(e.needed as nat),
        },
{
    if input.len() < 4 {
        return Err(Incomplete { needed: 4 - input.len() });
    }
    let value: u32 = input[0] as u32 * 0x100_0000 + input[1] as u32 * 0x1_0000 + input[2] as u32
        * 0x100 + input[3] as u32;
    let rest = vstd::slice::slice_subrange(input, 4, input.len());
    assert(rest@ == input@.skip(4));
    assert(value == be_value4(input@)) by {
        reveal(be_value4);
    }
    Ok((rest, value))
}

/// Reads a field.
pub(crate) fn be_field(input: &[u8]) -> (r: Result<(&[u8], Vec<u8>), Incomplete>)
    ensures
        match r {
            Ok((rest, value)) => read_field(input@) == Ok::<_, nat>((value@, rest@)),
            Err(e) => read_field(input@) == Err::<(Seq<u8>, Seq<u8>), nat>(e.needed as nat),
        },
{
    let (input, len) = match be_u32(input) {
        Ok(parsed) => parsed,
        Err(e) => return Err(e),
    };
    if input.len() < len as usize {
        return Err(Incomplete { needed: len as usize - input.len() });
    }
    let value = vstd::slice::slice_subrange(input, 0, len as usize);
    let rest = vstd::slice::slice_subrange(input, len as usize, input.len());
    assert(value@ == input@.take(len as int));
    assert(rest@ == input@.skip(len as int));
    Ok((rest, vstd::slice::slice_to_vec(value)))
}

/// Reads `n` fields.
pub(crate) fn be_fields(input: &[u8], n: usize) -> (r: Result<
    (&[u8], Vec<Vec<u8>>),
    Incomplete,
>)
    ensures
        match r {
            Ok((rest, fields)) => read_fields(input@, n as nat) == Ok::<_, nat>(
                (views(fields@), rest@),
            ) && fields@.len() == n,
            Err(e) => read_fields(input@, n as nat) == Err::<(Seq<Seq<u8>>, Seq<u8>), nat>(
                e.needed as nat,
            ),
        },
    decreases n,
{
    let mut fields: Vec<Vec<u8>> = Vec::new();
    if n == 0 {
        assert(views(fields@) == Seq::<Seq<u8>>::empty());
        return Ok((input, fields));
    }
    let (rest, mut fields) = match be_fields(input, n - 1) {
        Ok(parsed) => parsed,
        Err(e) => return Err(e),
    };
    let (rest, field) = match be_field(rest) {
        Ok(parsed) => parsed,
        Err(e) => return Err(e),
    };
    proof {
        lemma_views_push(fields@, field);
    }
    fields.push(field);
    Ok((rest, fields))
}

fn be_record(input: &[u8]) -> (r: Result<(&[u8], ResponseRecord), Incomplete>)
    ensures
        match r {
            Ok((rest, record)) => read_record(input@) == Ok::<_, nat>((record@, rest@)),
            Err(e) => read_record(input@) == Err::<(ResponseRecordModel, Seq<u8>), nat>(
                e.needed as nat,
            ),
        },
{
    let (rest, mut fields) = match be_fields(input, 5) {
        Ok(parsed) => parsed,
        Err(e) => return Err(e),
    };
    let ghost f = views(fields@);
    assert(f[0] == fields@[0]@ && f[1] == fields@[1]@ && f[2] == fields@[2]@ && f[3] == fields@[3]@
        && f[4] == fields@[4]@);
    let cert = fields.remove(4);
    let dns = fields.remove(3);
    let signature = fields.remove(2);
    let signature_input = fields.remove(1);
    let content_digest = fields.remove(0);
    Ok(
        (
            rest,
            ResponseRecord::new(
                SignatureFields { content_digest, signature_input, signature },
                dns,
                cert,
            ),
        ),
    )
}

proof fn lemma_read_records_fails_on(input: Seq<u8>, i: nat, n: nat)
    requires
        i <= n,
        read_records(input, i) is Err,
    ensures
        read_records(input, n) == read_records(input, i),
    decreases n - i,
{
    if i < n {
        lemma_read_records_fails_on(input, i + 1, n);
    }
}

/// Reads a response from the front of `input`. What follows it is handed back.
pub fn be_multi_response(input: &[u8]) -> (r: Result<(&[u8], MultiResponse), Incomplete>)
    ensures
        match r {
            Ok((rest, response)) => read_response(input@) == Ok::<_, nat>((response@, rest@)),
            Err(e) => read_response(input@) == Err::<(Seq<ResponseRecordModel>, Seq<u8>), nat>(
                e.needed as nat,
            ),
        },
{
    let (start, count) = match be_u32(input) {
        Ok(parsed) => parsed,
        Err(e) => return Err(e),
    };
    let mut rest = start;
    let mut records: Vec<ResponseRecord> = Vec::new();
    assert(views(records@) == Seq::<ResponseRecordModel>::empty());
    let mut i: u32 = 0;
    while i < count
        invariant
            i <= count,
            read_response(input@) == read_records(start@, count as nat),
            read_records(start@, i as nat) == Ok::<_, nat>((views(records@), rest@)),
        decreases count - i,
    {
        match be_record(rest) {
            Ok((next, record)) => {
                proof {
                    lemma_views_push(records@, record);
                }
                records.push(record);
                rest = next;
            },
            Err(e) => {
                proof {
                    lemma_read_records_fails_on(start@, (i + 1) as nat, count as nat);
                }
                return Err(e);
            },
        }
        i = i + 1;
    }
    Ok((rest, MultiResponse { records }))
}

proof fn lemma_field_read_fits(input: Seq<u8>)
    ensures
        read_field(input) matches Ok((field, _)) ==> field_fits(field),
{
    if input.len() >= 4 {
        assert(be_value4(input) < 0x1_0000_0000) by {
            reveal(be_value4);
        }
    }
}

proof fn lemma_fields_read_fit(input: Seq<u8>, n: nat)
    ensures
        read_fields(input, n) matches Ok((fields, _)) ==> fields.len() == n && forall|i: int|
            0 <= i < n ==> field_fits(#[trigger] fields[i]),
    decreases n,
{
    if n > 0 {
        lemma_fields_read_fit(input, (n - 1) as nat);
        if let Ok((fields, rest)) = read_fields(input, (n - 1) as nat) {
            lemma_field_read_fits(rest);
        }
    }
}

/// The fields of every record that is read are as short as the format makes them.
pub proof fn lemma_records_read_fit(input: Seq<u8>, n: nat)
    ensures
        read_records(input, n) matches Ok((records, _)) ==> forall|i: int|
            0 <= i < records.len() ==> record_fits(#[trigger] records[i]),
    decreases n,
{
    if n > 0 {
        lemma_records_read_fit(input, (n - 1) as nat);
        if let Ok((records, rest)) = read_records(input, (n - 1) as nat) {
            lemma_fields_read_fit(rest, 5);
        }
    }
}

/// The lengths of a field fits in the 32 bits that the format has for it.
pub open spec fn field_fits(value: Seq<u8>) -> bool {
    value.len() < 0x1_0000_0000
}

/// Every length in the record fits in the 32 bits that the format has for it.
pub open spec fn record_fits(r: ResponseRecordModel) -> bool {
    &&& field_fits(r.signature_fields.content_digest)
    &&& field_fits(r.signature_fields.signature_input)
    &&& field_fits(r.signature_fields.signature)
    &&& field_fits(r.dns)
    &&& field_fits(r.cert)
}

/// Reading an encoded number gives the number back.
pub proof fn law_number_round_trip(n: u32, rest: Seq<u8>)
    ensures
        read_u32(be_bytes4(n) + rest) == Ok::<_, nat>((n as nat, rest)),
{
    let s = be_bytes4(n) + rest;
    assert(s.skip(4) == rest);
    reveal(be_value4);
    assert(s[0] == be_bytes4(n)[0] && s[1] == be_bytes4(n)[1] && s[2] == be_bytes4(n)[2] && s[3]
        == be_bytes4(n)[3]);
}

/// Reading an encoded field gives its bytes back.
pub proof fn law_field_round_trip(value: Seq<u8>, rest: Seq<u8>)
    requires
        field_fits(value),
    ensures
        read_field(field_encoding(value) + rest) == Ok::<_, nat>((value, rest)),
{
    law_number_round_trip(value.len() as u32, value + rest);
    assert(field_encoding(value) + rest == be_bytes4(value.len() as u32) + (value + rest));
    assert((value + rest).take(value.len() as int) == value);
    assert((value + rest).skip(value.len() as int) == rest);
}

/// The fields one behind the other.
pub open spec fn fields_encoding(fields: Seq<Seq<u8>>) -> Seq<u8>
    decreases fields.len(),
{
    if fields.len() == 0 {
        Seq::empty()
    } else {
        fields_encoding(fields.drop_last()) + field_encoding(fields.last())
    }
}

/// Reading encoded fields gives the fields back.
pub proof fn law_fields_round_trip(fields: Seq<Seq<u8>>, rest: Seq<u8>)
    requires
        forall|i: int| 0 <= i < fields.len() ==> field_fits(#[trigger] fields[i]),
    ensures
        read_fields(fields_encoding(fields) + rest, fields.len()) == Ok::<_, nat>((fields, rest)),
    decreases fields.len(),
{
    if fields.len() == 0 {
        assert(fields_encoding(fields) + rest == rest);
        assert(fields == Seq::<Seq<u8>>::empty());
    } else {
        let tail = field_encoding(fields.last()) + rest;
        assert(forall|i: int|
            0 <= i < fields.drop_last().len() ==> #[trigger] fields.drop_last()[i] == fields[i]);
        law_fields_round_trip(fields.drop_last(), tail);
        law_field_round_trip(fields.last(), rest);
        assert(fields_encoding(fields) + rest == fields_encoding(fields.drop_last()) + tail);
        assert(fields.drop_last().push(fields.last()) == fields);
    }
}

/// Reading an encoded record gives the record back.
pub proof fn law_record_round_trip(record: ResponseRecordModel, rest: Seq<u8>)
    requires
        record_fits(record),
    ensures
        read_record(record_encoding(record) + rest) == Ok::<_, nat>((record, rest)),
{
    let fields = seq![
        record.signature_fields.content_digest,
        record.signature_fields.signature_input,
        record.signature_fields.signature,
        record.dns,
        record.cert,
    ];
    law_fields_round_trip(fields, rest);
    reveal_with_fuel(fields_encoding, 6);
    assert(fields.drop_last() == fields.take(4));
    assert(fields.take(4).drop_last() == fields.take(3));
    assert(fields.take(3).drop_last() == fields.take(2));
    assert(fields.take(2).drop_last() == fields.take(1));
    assert(fields.take(1).drop_last() == fields.take(0));
    assert(fields_encoding(fields) == record_encoding(record));
}

proof fn lemma_records_round_trip(records: Seq<ResponseRecordModel>, rest: Seq<u8>)
    requires
        forall|i: int| 0 <= i < records.len() ==> record_fits(#[trigger] records[i]),
    ensures
        read_records(records_encoding(records) + rest, records.len()) == Ok::<_, nat>(
            (records, rest),
        ),
    decreases records.len(),
{
    if records.len() == 0 {
        assert(records_encoding(records) + rest == rest);
        assert(records == Seq::<ResponseRecordModel>::empty());
    } else {
        let tail = record_encoding(records.last()) + rest;
        assert(forall|i: int|
            0 <= i < records.drop_last().len() ==> #[trigger] records.drop_last()[i]
                == records[i]);
        lemma_records_round_trip(records.drop_last(), tail);
        law_record_round_trip(records.last(), rest);
        assert(records_encoding(records) + rest == records_encoding(records.drop_last()) + tail);
        assert(records.drop_last().push(records.last()) == records);
    }
}

/// Reading an encoded response gives its records back, and leaves what follows.
pub proof fn law_response_round_trip(records: Seq<ResponseRecordModel>, rest: Seq<u8>)
    requires
        records.len() < 0x1_0000_0000,
        forall|i: int| 0 <= i < records.len() ==> record_fits(#[trigger] records[i]),
    ensures
        read_response(response_encoding(records) + rest) == Ok::<_, nat>((records, rest)),
{
    lemma_records_round_trip(records, rest);
    law_number_round_trip(records.len() as u32, records_encoding(records) + rest);
    assert(response_encoding(records) + rest == be_bytes4(records.len() as u32) + (
    records_encoding(records) + rest));
}

/// What follows a number does not change what it is read as, and is left.
pub proof fn lemma_number_extends(input: Seq<u8>, tail: Seq<u8>)
    ensures
        read_u32(input) matches Ok((value, rest)) ==> read_u32(input + tail) == Ok::<_, nat>(
            (value, rest + tail),
        ),
{
    if input.len() >= 4 {
        let more = input + tail;
        assert(more.skip(4) =~= input.skip(4) + tail);
        assert(be_value4(more) == be_value4(input)) by {
            reveal(be_value4);
            assert(more[0] == input[0] && more[1] == input[1] && more[2] == input[2] && more[3]
                == input[3]);
        }
    }
}

proof fn lemma_field_extends(input: Seq<u8>, tail: Seq<u8>)
    ensures
        read_field(input) matches Ok((value, rest)) ==> read_field(input + tail) == Ok::<_, nat>(
            (value, rest + tail),
        ),
{
    lemma_number_extends(input, tail);
    if let Ok((len, rest)) = read_u32(input) {
        if rest.len() >= len {
            let n = len as int;
            assert((rest + tail).take(n) =~= rest.take(n));
            assert((rest + tail).skip(n) =~= rest.skip(n) + tail);
        }
    }
}

/// What follows some fields does not change what they are read as, and is left.
pub proof fn lemma_fields_extend(input: Seq<u8>, n: nat, tail: Seq<u8>)
    ensures
        read_fields(input, n) matches Ok((fields, rest)) ==> read_fields(input + tail, n) == Ok::<
            _,
            nat,
        >((fields, rest + tail)),
    decreases n,
{
    if n > 0 {
        lemma_fields_extend(input, (n - 1) as nat, tail);
        if let Ok((fields, rest)) = read_fields(input, (n - 1) as nat) {
            lemma_field_extends(rest, tail);
        }
    }
}

proof fn lemma_records_extend(input: Seq<u8>, n: nat, tail: Seq<u8>)
    ensures
        read_records(input, n) matches Ok((records, rest)) ==> read_records(input + tail, n)
            == Ok::<_, nat>((records, rest + tail)),
    decreases n,
{
    if n > 0 {
        lemma_records_extend(input, (n - 1) as nat, tail);
        if let Ok((records, rest)) = read_records(input, (n - 1) as nat) {
            lemma_fields_extend(rest, 5, tail);
        }
    }
}

/// What follows a response does not change what it is read as, and is left.
pub proof fn law_what_follows_a_response_is_left(input: Seq<u8>, tail: Seq<u8>)
    ensures
        read_response(input) matches Ok((records, rest)) ==> read_response(input + tail) == Ok::<
            _,
            nat,
        >((records, rest + tail)),
{
    lemma_number_extends(input, tail);
    if let Ok((count, rest)) = read_u32(input) {
        lemma_records_extend(rest, count, tail);
    }
}

/// A response that is cut short is refused, wherever it is cut.
pub proof fn law_cut_response_is_refused(data: Seq<u8>, n: int)
    requires
        read_response(data) matches Ok((_, rest)) && rest.len() == 0,
        0 <= n < data.len(),
    ensures
        read_response(data.take(n)) is Err,
{
    let front = data.take(n);
    assert(front + data.skip(n) =~= data);
    law_what_follows_a_response_is_left(front, data.skip(n));
    if let Ok((_, rest)) = read_response(front) {
        assert((rest + data.skip(n)).len() > 0);
    }
}

/// No proper part of an encoded response from its front on is a response.
pub proof fn law_cut_encoding_is_refused(records: Seq<ResponseRecordModel>, n: int)
    requires
        records.len() < 0x1_0000_0000,
        forall|i: int| 0 <= i < records.len() ==> record_fits(#[trigger] records[i]),
        0 <= n < response_encoding(records).len(),
    ensures
        read_response(response_encoding(records).take(n)) is Err,
{
    law_response_round_trip(records, Seq::empty());
    assert(response_encoding(records) + Seq::<u8>::empty() =~= response_encoding(records));
    law_cut_response_is_refused(response_encoding(records), n);
}

/// Numbers are written with their highest byte first.
pub proof fn law_numbers_are_written_highest_byte_first(n: u32)
    ensures
        ({
            let b = be_bytes4(n);
            &&& b.len() == 4
            &&& b[0] * 0x100_0000 + b[1] * 0x1_0000 + b[2] * 0x100 + b[3] == n
        }),
{
    law_number_round_trip(n, Seq::empty());
    assert(be_bytes4(n) + Seq::<u8>::empty() =~= be_bytes4(n));
    assert(be_value4(be_bytes4(n)) == n);
}

/// Wide numbers are written as their high half and their low half.
pub proof fn law_wide_numbers_are_written_high_half_first(high: u32, low: u32)
    ensures
        be_bytes8((high * 0x1_0000_0000 + low) as u64) == be_bytes4(high) + be_bytes4(low),
{
    let wide = (high * 0x1_0000_0000 + low) as u64;
    assert(wide == high * 0x1_0000_0000 + low);
    assert(wide / 0x1_0000_0000 == high);
    assert(wide % 0x1_0000_0000 == low);
}

/// A field is its length and its bytes; a record is its three signature fields, its packet and
/// its certificate, in this order; a response is the number of its records and the records.
pub proof fn law_responses_are_laid_out_in_order(
    value: Seq<u8>,
    record: ResponseRecordModel,
    records: Seq<ResponseRecordModel>,
)
    requires
        value.len() < 0x1_0000_0000,
        records.len() + 1 < 0x1_0000_0000,
    ensures
        field_encoding(value).len() == 4 + value.len(),
        field_encoding(value).take(4) == be_bytes4(value.len() as u32),
        field_encoding(value).skip(4) == value,
        record_encoding(record) == field_encoding(record.signature_fields.content_digest)
            + field_encoding(record.signature_fields.signature_input) + field_encoding(
            record.signature_fields.signature,
        ) + field_encoding(record.dns) + field_encoding(record.cert),
        response_encoding(records).take(4) == be_bytes4(records.len() as u32),
        response_encoding(records.push(record)).skip(4) == response_encoding(records).skip(4)
            + record_encoding(record),
{
    assert(field_encoding(value).take(4) =~= be_bytes4(value.len() as u32));
    assert(field_encoding(value).skip(4) =~= value);
    let more = records.push(record);
    assert(response_encoding(records).take(4) =~= be_bytes4(records.len() as u32));
    assert(response_encoding(records).skip(4) =~= records_encoding(records));
    assert(response_encoding(more).skip(4) =~= records_encoding(more));
    assert(more.drop_last() =~= records);
    assert(more.last() == record);
}

/// A publisher belongs to the chain that its certificate names.
pub proof fn law_publishers_belong_to_the_chain_of_their_certificate(cert: Seq<u8>)
    ensures
        certificate_chain(cert) matches Some((number, kind)) ==> {
            &&& publisher_chain(cert) is Some
            &&& publisher_chain(cert)->0.kind == kind
            &&& publisher_chain(cert)->0.sequence.number() == number
        },
        certificate_chain(cert) is None ==> publisher_chain(cert) is None,
{
    if let Some((number, kind)) = certificate_chain(cert) {
        lemma_numbered(number);
    }
}

/// Where input is cut short, it is told how much is missing.
pub proof fn law_it_is_told_how_much_is_missing(input: Seq<u8>, len: u32, part: Seq<u8>)
    ensures
        input.len() < 4 ==> read_u32(input) == Err::<(nat, Seq<u8>), nat>((4 - input.len()) as nat),
        input.len() < 4 ==> read_field(input) == Err::<(Seq<u8>, Seq<u8>), nat>(
            (4 - input.len()) as nat,
        ),
        part.len() < len ==> read_field(be_bytes4(len) + part) == Err::<(Seq<u8>, Seq<u8>), nat>(
            (len - part.len()) as nat,
        ),
{
    law_number_round_trip(len, part);
}

/// A record holds the packet, the certificate and the signature that it is made of.
pub proof fn law_records_hold_what_they_are_made_of(record: ResponseRecord)
    ensures
        record@.dns == record.dns@,
        record@.cert == record.cert@,
        record@.signature_fields.content_digest == record.signature_fields.content_digest@,
        record@.signature_fields.signature_input == record.signature_fields.signature_input@,
        record@.signature_fields.signature == record.signature_fields.signature@,
{
}

} // verus!
