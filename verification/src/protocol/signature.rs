//! The publisher signature over a DNS packet, carried in three header fields.
use vstd::prelude::*;
use vstd::utf8::*;

use crate::foreign::{
    base64_bytes, base64_decode, base64_encode, base64_text, certificate_spki, digestible,
    read_certificate_spki, sha256, sha256_digest, signature_accepted, spki_parts, utf8_text,
};
use crate::protocol::sigin;
use crate::protocol::sigin::{
    alg_name, alg_name_for_scheme, canonical_scheme, canonical_scheme_for_spki,
    scheme_for_alg_name, SignatureScheme, VerifyError,
};
use crate::text::{
    bytes_eq, decimal, first_index, hex, hex_string, law_bytes_are_written_in_hexadecimal_digits,
    lemma_decimal_reads_back, lemma_first_index, parse_unsigned, push_decimal, split, split_on, strip_prefix, strip_suffix, text_eq,
    unsigned_value,
};

verus! {

pub const CONTENT_DIGEST_HEADER: &'static str = "content-digest";

pub const SIGNATURE_INPUT_HEADER: &'static str = "signature-input";

pub const SIGNATURE_HEADER: &'static str = "signature";

/// The label of the signature among those of a message.
pub const SIGNATURE_LABEL: &'static str = "dns";

/// The values of the three signature fields, as bytes.
#[derive(Debug, PartialEq, Eq)]
pub struct SignatureFields {
    pub content_digest: Vec<u8>,
    pub signature_input: Vec<u8>,
    pub signature: Vec<u8>,
}

/// The contents of [`SignatureFields`].
pub struct SignatureFieldsModel {
    pub content_digest: Seq<u8>,
    pub signature_input: Seq<u8>,
    pub signature: Seq<u8>,
}

impl View for SignatureFields {
    type V = SignatureFieldsModel;

    open spec fn view(&self) -> SignatureFieldsModel {
        SignatureFieldsModel {
            content_digest: self.content_digest@,
            signature_input: self.signature_input@,
            signature: self.signature@,
        }
    }
}

impl SignatureFieldsModel {
    /// The fields of an unsigned record.
    pub open spec fn unsigned() -> Self {
        SignatureFieldsModel {
            content_digest: Seq::empty(),
            signature_input: Seq::empty(),
            signature: Seq::empty(),
        }
    }
}

impl Clone for SignatureFields {
    fn clone(&self) -> (r: Self)
        ensures
            r@ == self@,
    {
        SignatureFields {
            content_digest: vstd::slice::slice_to_vec(self.content_digest.as_slice()),
            signature_input: vstd::slice::slice_to_vec(self.signature_input.as_slice()),
            signature: vstd::slice::slice_to_vec(self.signature.as_slice()),
        }
    }
}

impl Default for SignatureFields {
    fn default() -> (r: Self)
        ensures
            r@ == SignatureFieldsModel::unsigned(),
    {
        SignatureFields {
            content_digest: Vec::new(),
            signature_input: Vec::new(),
            signature: Vec::new(),
        }
    }
}

impl SignatureFields {
    /// The fields of an unsigned record.
    pub fn empty() -> (r: Self)
        ensures
            r@ == SignatureFieldsModel::unsigned(),
    {
        Self::default()
    }

    /// Whether the record is unsigned: all three fields are empty.
    pub fn is_empty(&self) -> (r: bool)
        ensures
            r == (self@ == SignatureFieldsModel::unsigned()),
    {
        let r = self.content_digest.is_empty() && self.signature_input.is_empty()
            && self.signature.is_empty();
        proof {
            if r {
                assert(self@.content_digest == Seq::<u8>::empty());
                assert(self@.signature_input == Seq::<u8>::empty());
                assert(self@.signature == Seq::<u8>::empty());
            }
        }
        r
    }
}

/// Why signature fields could not be made or checked.
#[derive(Debug, PartialEq, Eq)]
pub enum SignatureFieldsError {
    MissingCertificate,
    UnsupportedScheme { scheme: SignatureScheme },
    UnsupportedAlgorithm { alg: String },
    InvalidField { field: &'static str },
    InvalidUtf8,
    InvalidBase64,
    DigestMismatch,
    InvalidCertificate { details: String },
    Verify { source: VerifyError },
}

/// The contents of a [`SignatureFieldsError`].
pub enum SignatureFault {
    MissingCertificate,
    UnsupportedScheme { scheme: SignatureScheme },
    UnsupportedAlgorithm { alg: Seq<char> },
    InvalidField { field: Seq<char> },
    InvalidUtf8,
    InvalidBase64,
    DigestMismatch,
    InvalidCertificate { details: Seq<char> },
    Verify { source: VerifyError },
}

impl View for SignatureFieldsError {
    type V = SignatureFault;

    open spec fn view(&self) -> SignatureFault {
        match *self {
            SignatureFieldsError::MissingCertificate => SignatureFault::MissingCertificate,
            SignatureFieldsError::UnsupportedScheme { scheme } =>
                SignatureFault::UnsupportedScheme { scheme },
            SignatureFieldsError::UnsupportedAlgorithm { alg } =>
                SignatureFault::UnsupportedAlgorithm { alg: alg@ },
            SignatureFieldsError::InvalidField { field } => SignatureFault::InvalidField {
                field: field@,
            },
            SignatureFieldsError::InvalidUtf8 => SignatureFault::InvalidUtf8,
            SignatureFieldsError::InvalidBase64 => SignatureFault::InvalidBase64,
            SignatureFieldsError::DigestMismatch => SignatureFault::DigestMismatch,
            SignatureFieldsError::InvalidCertificate { details } =>
                SignatureFault::InvalidCertificate { details: details@ },
            SignatureFieldsError::Verify { source } => SignatureFault::Verify { source },
        }
    }
}

/// A result with the contents of its error.
pub open spec fn outcome<T>(r: Result<T, SignatureFieldsError>) -> Result<T, SignatureFault> {
    match r {
        Ok(v) => Ok(v),
        Err(e) => Err(e@),
    }
}

pub open spec fn invalid_field(field: &str) -> SignatureFault {
    SignatureFault::InvalidField { field: field@ }
}

/// The lowercase hexadecimal SHA-256 fingerprint of a certificate.
pub fn cert_fingerprint_hex(cert_der: &[u8]) -> (r: String)
    requires
        digestible(cert_der@),
    ensures
        r@ == hex(sha256(cert_der@)),
{
    let digest = sha256_digest(cert_der);
    hex_string(digest.as_slice())
}

/// The key identifier that stands for a certificate.
pub open spec fn keyid(cert: Seq<u8>) -> Seq<char> {
    "sha256:"@ + hex(sha256(cert))
}

/// The key identifier that stands for a certificate.
pub fn keyid_for_cert(cert_der: &[u8]) -> (r: String)
    requires
        digestible(cert_der@),
    ensures
        r@ == keyid(cert_der@),
{
    crate::text::join2("sha256:", cert_fingerprint_hex(cert_der).as_str())
}

/// The content digest field of a packet.
pub open spec fn digest_text(dns: Seq<u8>) -> Seq<char> {
    "sha-256=:"@ + base64_encode(sha256(dns)) + ":"@
}

/// The text between `prefix` and a closing colon.
pub open spec fn enclosed(text: Seq<char>, prefix: Seq<char>) -> Option<Seq<char>> {
    if prefix.is_prefix_of(text) && ":"@.is_suffix_of(text.skip(prefix.len() as int)) {
        let rest = text.skip(prefix.len() as int);
        Some(rest.take(rest.len() - 1))
    } else {
        None
    }
}

proof fn lemma_enclosed(prefix: Seq<char>, inner: Seq<char>)
    ensures
        enclosed(prefix + inner + ":"@, prefix) == Some(inner),
{
    reveal_strlit(":");
    let text = prefix + inner + ":"@;
    assert(text.take(prefix.len() as int) == prefix);
    assert(prefix.is_prefix_of(text));
    let rest = text.skip(prefix.len() as int);
    assert(rest == inner + ":"@);
    assert(rest.skip(inner.len() as int) == ":"@);
    assert(":"@.is_suffix_of(rest));
    assert(rest.take(rest.len() - 1) == inner);
}

fn unwrap_enclosed<'a>(text: &'a str, prefix: &str) -> (r: Option<&'a str>)
    ensures
        r is Some <==> enclosed(text@, prefix@) is Some,
        r is Some ==> enclosed(text@, prefix@) == Some((r->0)@),
{
    proof {
        reveal_strlit(":");
    }
    match strip_prefix(text, prefix) {
        Some(rest) => strip_suffix(rest, ":"),
        None => None,
    }
}

/// The content digest field of a packet.
pub fn content_digest_value(dns_bytes: &[u8]) -> (r: String)
    requires
        digestible(dns_bytes@),
    ensures
        r@ == digest_text(dns_bytes@),
        digest_check(r@, dns_bytes@) is Ok,
{
    let digest = sha256_digest(dns_bytes);
    let encoded = base64_text(digest.as_slice());
    let mut out = String::new();
    out.append("sha-256=:");
    out.append(encoded.as_str());
    out.append(":");
    assert(out@ == digest_text(dns_bytes@));
    proof {
        lemma_enclosed("sha-256=:"@, encoded@);
    }
    out
}

/// Whether a content digest field belongs to a packet, or what is wrong with it.
pub open spec fn digest_check(text: Seq<char>, dns: Seq<u8>) -> Result<(), SignatureFault> {
    match enclosed(text, "sha-256=:"@) {
        None => Err(invalid_field(CONTENT_DIGEST_HEADER)),
        Some(encoded) => match base64_decode(encoded) {
            None => Err(SignatureFault::InvalidBase64),
            Some(decoded) => if decoded != sha256(dns) {
                Err(SignatureFault::DigestMismatch)
            } else {
                Ok(())
            },
        },
    }
}

/// Checks that a content digest field belongs to a packet.
pub fn verify_content_digest(content_digest: &str, dns_bytes: &[u8]) -> (r: Result<
    (),
    SignatureFieldsError,
>)
    requires
        digestible(dns_bytes@),
    ensures
        outcome(r) == digest_check(content_digest@, dns_bytes@),
{
    let encoded = match unwrap_enclosed(content_digest, "sha-256=:") {
        Some(encoded) => encoded,
        None => return Err(SignatureFieldsError::InvalidField { field: CONTENT_DIGEST_HEADER }),
    };
    let decoded = match base64_bytes(encoded) {
        Some(decoded) => decoded,
        None => return Err(SignatureFieldsError::InvalidBase64),
    };
    let digest = sha256_digest(dns_bytes);
    if !bytes_eq(decoded.as_slice(), digest.as_slice()) {
        return Err(SignatureFieldsError::DigestMismatch);
    }
    Ok(())
}

/// The signature field of a signature.
pub open spec fn signature_text(signature: Seq<u8>) -> Seq<char> {
    "dns=:"@ + base64_encode(signature) + ":"@
}

/// The signature in a signature field, or what is wrong with the field.
pub open spec fn signature_in(text: Seq<char>) -> Result<Seq<u8>, SignatureFault> {
    match enclosed(text, "dns=:"@) {
        None => Err(invalid_field(SIGNATURE_HEADER)),
        Some(encoded) => match base64_decode(encoded) {
            None => Err(SignatureFault::InvalidBase64),
            Some(decoded) => Ok(decoded),
        },
    }
}

/// The signature field of a signature.
pub fn signature_value(signature: &[u8]) -> (r: String)
    requires
        signature@.len() <= isize::MAX / 2,
    ensures
        r@ == signature_text(signature@),
        signature_in(r@) == Ok::<_, SignatureFault>(signature@),
{
    let encoded = base64_text(signature);
    let mut out = String::new();
    out.append("dns=:");
    out.append(encoded.as_str());
    out.append(":");
    assert(out@ == signature_text(signature@));
    proof {
        lemma_enclosed("dns=:"@, encoded@);
    }
    out
}

/// Reads the signature in a signature field.
pub fn parse_signature(input: &str) -> (r: Result<Vec<u8>, SignatureFieldsError>)
    ensures
        match r {
            Ok(signature) => signature_in(input@) == Ok::<_, SignatureFault>(signature@),
            Err(e) => signature_in(input@) == Err::<Seq<u8>, _>(e@),
        },
{
    let encoded = match unwrap_enclosed(input, "dns=:") {
        Some(encoded) => encoded,
        None => return Err(SignatureFieldsError::InvalidField { field: SIGNATURE_HEADER }),
    };
    match base64_bytes(encoded) {
        Some(decoded) => Ok(decoded),
        None => Err(SignatureFieldsError::InvalidBase64),
    }
}

/// The signature input field for these parameters.
pub open spec fn signature_input_text(created: nat, keyid: Seq<char>, alg: Seq<char>) -> Seq<char> {
    "dns=(\"content-digest\");created="@ + decimal(created) + ";keyid=\""@ + keyid + "\";alg=\""@
        + alg + "\""@
}

/// The signature input field for these parameters.
pub fn signature_input_value(created: u64, keyid: &str, alg: &str) -> (r: String)
    ensures
        r@ == signature_input_text(created as nat, keyid@, alg@),
{
    let mut out = String::new();
    out.append("dns=(\"content-digest\");created=");
    push_decimal(&mut out, created);
    out.append(";keyid=\"");
    out.append(keyid);
    out.append("\";alg=\"");
    out.append(alg);
    out.append("\"");
    assert(out@ == signature_input_text(created as nat, keyid@, alg@));
    out
}

/// What a signature input field says.
pub struct ParsedInput {
    pub signature_params: Seq<char>,
    pub alg: Seq<char>,
    pub keyid: Seq<char>,
}

/// What a signature input field says, as slices of the field.
#[derive(Debug, Clone, Copy, PartialEq, Eq)]
pub struct ParsedSignatureInput<'a> {
    pub signature_params: &'a str,
    pub alg: &'a str,
    pub keyid: &'a str,
}

impl<'a> View for ParsedSignatureInput<'a> {
    type V = ParsedInput;

    open spec fn view(&self) -> ParsedInput {
        ParsedInput {
            signature_params: self.signature_params@,
            alg: self.alg@,
            keyid: self.keyid@,
        }
    }
}

/// The text inside a pair of double quotes.
pub open spec fn unquoted(value: Seq<char>) -> Option<Seq<char>> {
    if value.len() >= 2 && value[0] == '"' && value.last() == '"' {
        Some(value.subrange(1, value.len() - 1))
    } else {
        None
    }
}

/// The text inside a pair of double quotes.
pub fn unquote<'a>(value: &'a str) -> (r: Option<&'a str>)
    ensures
        r is Some <==> unquoted(value@) is Some,
        r is Some ==> unquoted(value@) == Some((r->0)@),
{
    let n = value.unicode_len();
    if n >= 2 && value.get_char(0) == '"' && value.get_char(n - 1) == '"' {
        Some(value.substring_char(1, n - 1))
    } else {
        None
    }
}

/// The parameters read so far: a parameter that is given again replaces what was
/// read before, with nothing where its value cannot be read.
pub struct ParamsRead {
    pub created: Option<nat>,
    pub keyid: Option<Seq<char>>,
    pub alg: Option<Seq<char>>,
}

/// Reads one more parameter. An empty one is skipped, an unknown one is refused.
pub open spec fn param_step(read: ParamsRead, param: Seq<char>) -> Option<ParamsRead> {
    if param.len() == 0 {
        Some(read)
    } else if "created="@.is_prefix_of(param) {
        Some(
            ParamsRead {
                created: unsigned_value(
                    param.skip("created="@.len() as int),
                    u64::MAX as nat,
                ),
                ..read
            },
        )
    } else if "keyid="@.is_prefix_of(param) {
        Some(ParamsRead { keyid: unquoted(param.skip("keyid="@.len() as int)), ..read })
    } else if "alg="@.is_prefix_of(param) {
        Some(ParamsRead { alg: unquoted(param.skip("alg="@.len() as int)), ..read })
    } else {
        None
    }
}

/// Reads the parameters from left to right.
pub open spec fn params_read(params: Seq<Seq<char>>) -> Option<ParamsRead>
    decreases params.len(),
{
    if params.len() == 0 {
        Some(ParamsRead { created: None, keyid: None, alg: None })
    } else {
        match params_read(params.drop_last()) {
            Some(read) => param_step(read, params.last()),
            None => None,
        }
    }
}

/// What a signature input field says, where it is well formed: it covers the
/// content digest and names a creation time, a key and an algorithm.
pub open spec fn parsed_input(input: Seq<char>) -> Option<ParsedInput> {
    let prefix = "dns=(\"content-digest\")"@;
    if !prefix.is_prefix_of(input) {
        None
    } else {
        match params_read(split_on(input.skip(prefix.len() as int), ';')) {
            Some(ParamsRead { created: Some(_), keyid: Some(keyid), alg: Some(alg) }) => Some(
                ParsedInput { signature_params: input.skip("dns="@.len() as int), alg, keyid },
            ),
            _ => None,
        }
    }
}

proof fn lemma_params_read_refused(params: Seq<Seq<char>>, i: int)
    requires
        0 <= i <= params.len(),
        params_read(params.take(i)) is None,
    ensures
        params_read(params) is None,
    decreases params.len() - i,
{
    if i < params.len() {
        assert(params.take(i + 1).drop_last() == params.take(i));
        lemma_params_read_refused(params, i + 1);
    } else {
        assert(params.take(i) == params);
    }
}

/// Reads a signature input field.
pub fn parse_signature_input<'a>(input: &'a str) -> (r: Result<
    ParsedSignatureInput<'a>,
    SignatureFieldsError,
>)
    ensures
        match r {
            Ok(parsed) => parsed_input(input@) == Some(parsed@),
            Err(e) => parsed_input(input@) is None && e@ == invalid_field(SIGNATURE_INPUT_HEADER),
        },
{
    proof {
        reveal_strlit("dns=");
        reveal_strlit("dns=(\"content-digest\")");
    }
    let params = match strip_prefix(input, "dns=(\"content-digest\")") {
        Some(params) => params,
        None => return Err(SignatureFieldsError::InvalidField { field: SIGNATURE_INPUT_HEADER }),
    };
    let signature_params = input.substring_char(4, input.unicode_len());
    assert(signature_params@ == input@.skip(4));
    let parts = split(params, ';');
    let ghost texts = split_on(params@, ';');
    let mut created: Option<u64> = None;
    let mut keyid: Option<&'a str> = None;
    let mut alg: Option<&'a str> = None;
    let mut i: usize = 0;
    assert(texts.take(0).len() == 0);
    while i < parts.len()
        invariant
            i <= parts@.len(),
            parts@.len() == texts.len(),
            forall|j: int| 0 <= j < parts@.len() ==> (#[trigger] parts@[j])@ == texts[j],
            params_read(texts.take(i as int)) == Some(
                ParamsRead {
                    created: (match created {
                        Some(v) => Some(v as nat),
                        None => None,
                    }),
                    keyid: (match keyid {
                        Some(v) => Some(v@),
                        None => None,
                    }),
                    alg: (match alg {
                        Some(v) => Some(v@),
                        None => None,
                    }),
                },
            ),
            parsed_input(input@) is Some ==> params_read(texts) is Some,
        decreases parts@.len() - i,
    {
        let param = parts[i];
        proof {
            assert(texts.take(i + 1).drop_last() == texts.take(i as int));
            assert(texts.take(i + 1).last() == param@);
            reveal_strlit("created=");
            reveal_strlit("keyid=");
            reveal_strlit("alg=");
        }
        if param.unicode_len() > 0 {
            if let Some(value) = strip_prefix(param, "created=") {
                created = parse_unsigned(value);
            } else if let Some(value) = strip_prefix(param, "keyid=") {
                keyid = unquote(value);
            } else if let Some(value) = strip_prefix(param, "alg=") {
                alg = unquote(value);
            } else {
                proof {
                    lemma_params_read_refused(texts, i + 1);
                }
                return Err(SignatureFieldsError::InvalidField { field: SIGNATURE_INPUT_HEADER });
            }
        }
        i = i + 1;
    }
    assert(texts.take(i as int) == texts);
    if created.is_none() {
        return Err(SignatureFieldsError::InvalidField { field: SIGNATURE_INPUT_HEADER });
    }
    match (keyid, alg) {
        (Some(keyid), Some(alg)) => Ok(ParsedSignatureInput { signature_params, alg, keyid }),
        _ => Err(SignatureFieldsError::InvalidField { field: SIGNATURE_INPUT_HEADER }),
    }
}

/// The text that is signed.
pub open spec fn base_text(digest: Seq<char>, signature_params: Seq<char>) -> Seq<char> {
    "\"content-digest\": "@ + digest + "\n\"@signature-params\": "@ + signature_params
}

/// The text that is signed for a content digest field and a signature input field.
pub fn signature_base(content_digest: &str, signature_input: &str) -> (r: Result<
    String,
    SignatureFieldsError,
>)
    ensures
        match (r, parsed_input(signature_input@)) {
            (Ok(base), Some(parsed)) => base@ == base_text(
                content_digest@,
                parsed.signature_params,
            ),
            (Err(e), None) => e@ == invalid_field(SIGNATURE_INPUT_HEADER),
            _ => false,
        },
{
    let parsed = match parse_signature_input(signature_input) {
        Ok(parsed) => parsed,
        Err(e) => return Err(e),
    };
    let mut out = String::new();
    out.append("\"content-digest\": ");
    out.append(content_digest);
    out.append("\n\"@signature-params\": ");
    out.append(parsed.signature_params);
    assert(out@ == base_text(content_digest@, parsed.signature_params@));
    Ok(out)
}

/// A signature field as text.
pub fn field_str<'a>(field: &'a [u8]) -> (r: Result<&'a str, SignatureFieldsError>)
    ensures
        match r {
            Ok(text) => valid_utf8(field@) && text@ == decode_utf8(field@),
            Err(e) => !valid_utf8(field@) && e@ == SignatureFault::InvalidUtf8,
        },
{
    match utf8_text(field) {
        Some(text) => Ok(text),
        None => Err(SignatureFieldsError::InvalidUtf8),
    }
}

/// The fields are short enough for what they say to be digested.
pub open spec fn fields_bounded(fields: SignatureFieldsModel) -> bool {
    fields.content_digest.len() < 0x100_0000_0000_0000 && fields.signature_input.len()
        < 0x100_0000_0000_0000
}

/// The outcome of checking signature fields against a packet and a certificate.
/// Unsigned fields, and those of another certificate, are not accepted.
pub open spec fn verification(
    fields: SignatureFieldsModel,
    dns: Seq<u8>,
    cert: Seq<u8>,
) -> Result<bool, SignatureFault> {
    let digest = decode_utf8(fields.content_digest);
    let input = decode_utf8(fields.signature_input);
    if fields == SignatureFieldsModel::unsigned() {
        Ok(false)
    } else if !valid_utf8(fields.content_digest) {
        Err(SignatureFault::InvalidUtf8)
    } else if digest_check(digest, dns) is Err {
        Err(digest_check(digest, dns)->Err_0)
    } else if !valid_utf8(fields.signature_input) {
        Err(SignatureFault::InvalidUtf8)
    } else {
        match parsed_input(input) {
            None => Err(invalid_field(SIGNATURE_INPUT_HEADER)),
            Some(parsed) => if parsed.keyid != keyid(cert) {
                Ok(false)
            } else if !(exists|s: SignatureScheme| alg_name(s) == Some(parsed.alg)) {
                Err(SignatureFault::UnsupportedAlgorithm { alg: parsed.alg })
            } else if !valid_utf8(fields.signature) {
                Err(SignatureFault::InvalidUtf8)
            } else {
                match signature_in(decode_utf8(fields.signature)) {
                    Err(fault) => Err(fault),
                    Ok(signature) => certificate_verification(
                        cert,
                        choose|s: SignatureScheme| alg_name(s) == Some(parsed.alg),
                        base_text(digest, parsed.signature_params),
                        signature,
                    ),
                }
            },
        }
    }
}

/// The outcome of checking a signature over a text with the key of a certificate.
pub open spec fn certificate_verification(
    cert: Seq<u8>,
    scheme: SignatureScheme,
    base: Seq<char>,
    signature: Seq<u8>,
) -> Result<bool, SignatureFault> {
    match certificate_spki(cert) {
        Err(details) => Err(SignatureFault::InvalidCertificate { details }),
        Ok(spki) => match sigin::verification(spki, scheme, encode_utf8(base), signature) {
            Ok(accepted) => Ok(accepted),
            Err(source) => Err(SignatureFault::Verify { source }),
        },
    }
}

proof fn lemma_encoded_len(text: Seq<char>)
    ensures
        encode_utf8(text).len() <= 4 * text.len(),
    decreases text.len(),
{
    if text.len() > 0 {
        lemma_encoded_len(text.drop_first());
    }
}

proof fn lemma_decoded_len(bytes: Seq<u8>)
    requires
        valid_utf8(bytes),
    ensures
        decode_utf8(bytes).len() <= bytes.len(),
    decreases bytes.len(),
{
    if bytes.len() > 0 {
        lemma_decoded_len(pop_first_scalar(bytes));
    }
}

impl SignatureFields {
    /// Checks that the fields are a signature over the packet with the key of the
    /// certificate.
    pub fn verify(&self, dns_bytes: &[u8], cert_der: &[u8]) -> (r: Result<
        bool,
        SignatureFieldsError,
    >)
        requires
            digestible(dns_bytes@),
            digestible(cert_der@),
            fields_bounded(self@),
        ensures
            outcome(r) == verification(self@, dns_bytes@, cert_der@),
    {
        if self.is_empty() {
            return Ok(false);
        }
        let content_digest = match field_str(self.content_digest.as_slice()) {
            Ok(text) => text,
            Err(e) => return Err(e),
        };
        match verify_content_digest(content_digest, dns_bytes) {
            Ok(()) => {},
            Err(e) => return Err(e),
        }
        let signature_input = match field_str(self.signature_input.as_slice()) {
            Ok(text) => text,
            Err(e) => return Err(e),
        };
        let parsed = match parse_signature_input(signature_input) {
            Ok(parsed) => parsed,
            Err(e) => return Err(e),
        };
        let expected_keyid = keyid_for_cert(cert_der);
        if !text_eq(parsed.keyid, expected_keyid.as_str()) {
            return Ok(false);
        }
        let scheme = match scheme_for_alg_name(parsed.alg) {
            Some(scheme) => scheme,
            None => return Err(
                SignatureFieldsError::UnsupportedAlgorithm { alg: parsed.alg.to_owned() },
            ),
        };
        proof {
            let named = choose|s: SignatureScheme| alg_name(s) == Some(parsed.alg@);
            sigin::law_alg_names_are_unique(scheme, named);
        }
        let signature_text = match field_str(self.signature.as_slice()) {
            Ok(text) => text,
            Err(e) => return Err(e),
        };
        let signature = match parse_signature(signature_text) {
            Ok(signature) => signature,
            Err(e) => return Err(e),
        };
        let base = match signature_base(content_digest, signature_input) {
            Ok(base) => base,
            Err(e) => return Err(e),
        };
        let spki = match read_certificate_spki(cert_der) {
            Ok(spki) => spki,
            Err(details) => return Err(SignatureFieldsError::InvalidCertificate { details }),
        };
        proof {
            reveal_strlit("\"content-digest\": ");
            reveal_strlit("\n\"@signature-params\": ");
            lemma_encoded_len(base@);
            lemma_decoded_len(self@.content_digest);
            lemma_decoded_len(self@.signature_input);
            reveal_strlit("dns=");
            reveal_strlit("dns=(\"content-digest\")");
            assert(parsed@.signature_params.len() <= signature_input@.len());
            assert(base@.len() <= 64 + content_digest@.len() + signature_input@.len());
            assert(encode_utf8(base@).len() < 0x2000_0000_0000_0000);
        }
        match sigin::verify(
            spki.as_slice(),
            scheme,
            base.as_str().as_bytes(),
            signature.as_slice(),
        ) {
            Ok(accepted) => Ok(accepted),
            Err(source) => Err(SignatureFieldsError::Verify { source }),
        }
    }
}

/// What a publisher has to sign, and the fields that say so.
#[derive(Debug, PartialEq, Eq)]
pub struct SigningRequest {
    pub content_digest: String,
    pub signature_input: String,
    pub signature_base: String,
}

/// The contents of a [`SigningRequest`].
pub struct SigningRequestModel {
    pub content_digest: Seq<char>,
    pub signature_input: Seq<char>,
    pub signature_base: Seq<char>,
}

impl View for SigningRequest {
    type V = SigningRequestModel;

    open spec fn view(&self) -> SigningRequestModel {
        SigningRequestModel {
            content_digest: self.content_digest@,
            signature_input: self.signature_input@,
            signature_base: self.signature_base@,
        }
    }
}

/// The request to sign a packet with a key of the scheme, at the time `created`.
pub open spec fn signing_request(
    dns: Seq<u8>,
    cert: Seq<u8>,
    scheme: SignatureScheme,
    created: nat,
) -> SigningRequestModel {
    let input = signature_input_text(created, keyid(cert), alg_name(scheme)->0);
    SigningRequestModel {
        content_digest: digest_text(dns),
        signature_input: input,
        signature_base: base_text(digest_text(dns), input.skip("dns="@.len() as int)),
    }
}

impl SigningRequest {
    /// The request to sign a packet. `cert_chain` is the chain of the publisher, the
    /// leaf first, `public_key` its DER encoded subject public key info.
    pub fn new(
        dns_bytes: &[u8],
        cert_chain: &Vec<Vec<u8>>,
        public_key: &[u8],
        created: u64,
    ) -> (r: Result<Self, SignatureFieldsError>)
        requires
            digestible(dns_bytes@),
            cert_chain@.len() > 0 ==> digestible(cert_chain@[0]@),
        ensures
            match r {
                Ok(request) => {
                    &&& cert_chain@.len() > 0
                    &&& canonical_scheme(public_key@) is Some
                    &&& request@ == signing_request(
                        dns_bytes@,
                        cert_chain@[0]@,
                        canonical_scheme(public_key@)->0,
                        created as nat,
                    )
                    &&& digest_check(request@.content_digest, dns_bytes@) is Ok
                },
                Err(e) => if cert_chain@.len() == 0 {
                    e@ == SignatureFault::MissingCertificate
                } else {
                    canonical_scheme(public_key@) is None && e@
                        == (SignatureFault::UnsupportedScheme {
                        scheme: SignatureScheme::Unknown(0),
                    })
                },
            },
    {
        if cert_chain.is_empty() {
            return Err(SignatureFieldsError::MissingCertificate);
        }
        let keyid = keyid_for_cert(cert_chain[0].as_slice());
        let content_digest = content_digest_value(dns_bytes);
        let scheme = match canonical_scheme_for_spki(public_key) {
            Some(scheme) => scheme,
            None => return Err(
                SignatureFieldsError::UnsupportedScheme { scheme: SignatureScheme::Unknown(0) },
            ),
        };
        let alg = match alg_name_for_scheme(scheme) {
            Some(alg) => alg,
            None => return Err(SignatureFieldsError::UnsupportedScheme { scheme }),
        };
        let signature_input = signature_input_value(created, keyid.as_str(), alg);
        proof {
            lemma_keyid_has_no_separator(cert_chain@[0]@);
            lemma_alg_has_no_separator(scheme);
            law_signature_input_reads_back(created as nat, keyid@, alg@);
        }
        let signature_base = match signature_base(
            content_digest.as_str(),
            signature_input.as_str(),
        ) {
            Ok(base) => base,
            Err(e) => return Err(e),
        };
        Ok(SigningRequest { content_digest, signature_input, signature_base })
    }

    /// The signature fields, once the base text is signed.
    pub fn complete(&self, signature: &[u8]) -> (r: SignatureFields)
        requires
            signature@.len() <= isize::MAX / 2,
        ensures
            r@ == completed(self@, signature@),
            signature_in(signature_text(signature@)) == Ok::<_, SignatureFault>(signature@),
    {
        let text = signature_value(signature);
        SignatureFields {
            content_digest: self.content_digest.as_str().as_bytes_vec(),
            signature_input: self.signature_input.as_str().as_bytes_vec(),
            signature: text.as_str().as_bytes_vec(),
        }
    }
}

/// The signature fields of a request with the signature over its base text.
pub open spec fn completed(
    request: SigningRequestModel,
    signature: Seq<u8>,
) -> SignatureFieldsModel {
    SignatureFieldsModel {
        content_digest: encode_utf8(request.content_digest),
        signature_input: encode_utf8(request.signature_input),
        signature: encode_utf8(signature_text(signature)),
    }
}

/// No parameter separator occurs in the text.
pub open spec fn separator_free(text: Seq<char>) -> bool {
    forall|i: int| 0 <= i < text.len() ==> #[trigger] text[i] != ';'
}

proof fn lemma_keyid_has_no_separator(cert: Seq<u8>)
    ensures
        separator_free(keyid(cert)),
{
    reveal_strlit("sha256:");
    let h = hex(sha256(cert));
    assert forall|i: int| 0 <= i < keyid(cert).len() implies #[trigger] keyid(cert)[i] != ';' by {
        if i >= 7 {
            assert(keyid(cert)[i] == h[i - 7]);
        }
    }
}

proof fn lemma_alg_has_no_separator(scheme: SignatureScheme)
    requires
        alg_name(scheme) is Some,
    ensures
        separator_free(alg_name(scheme)->0),
{
    reveal_strlit("ed25519");
    reveal_strlit("ecdsa-p256-sha256");
    reveal_strlit("ecdsa-p384-sha384");
    reveal_strlit("rsa-pss-sha256");
    reveal_strlit("rsa-pss-sha384");
    reveal_strlit("rsa-pss-sha512");
    reveal_strlit("rsa-v1_5-sha256");
    reveal_strlit("rsa-v1_5-sha384");
    reveal_strlit("rsa-v1_5-sha512");
}

proof fn lemma_split_first(part: Seq<char>, rest: Seq<char>)
    requires
        separator_free(part),
    ensures
        split_on(part + seq![';'] + rest, ';') == seq![part] + split_on(rest, ';'),
{
    let text = part + seq![';'] + rest;
    lemma_first_index(text, ';');
    let i = first_index(text, ';');
    assert(text[part.len() as int] == ';');
    if i < part.len() {
        assert(text[i] == part[i]);
    }
    assert(i == part.len());
    assert(text.take(i) == part);
    assert(text.skip(i + 1) == rest);
}

proof fn lemma_split_last(part: Seq<char>)
    requires
        separator_free(part),
    ensures
        split_on(part, ';') == seq![part],
{
    lemma_first_index(part, ';');
}

spec fn created_part(created: nat) -> Seq<char> {
    "created="@ + decimal(created)
}

spec fn keyid_part(keyid: Seq<char>) -> Seq<char> {
    "keyid="@ + (seq!['"'] + keyid + seq!['"'])
}

spec fn alg_part(alg: Seq<char>) -> Seq<char> {
    "alg="@ + (seq!['"'] + alg + seq!['"'])
}

proof fn lemma_parts_have_no_separator(created: nat, keyid: Seq<char>, alg: Seq<char>)
    requires
        separator_free(keyid),
        separator_free(alg),
    ensures
        separator_free(created_part(created)),
        separator_free(keyid_part(keyid)),
        separator_free(alg_part(alg)),
{
    reveal_strlit("created=");
    reveal_strlit("keyid=");
    reveal_strlit("alg=");
    crate::text::lemma_decimal_digits(created);
    let p1 = created_part(created);
    let p2 = keyid_part(keyid);
    let p3 = alg_part(alg);
    assert forall|i: int| 0 <= i < p1.len() implies #[trigger] p1[i] != ';' by {
        if i >= 8 {
            assert(crate::text::is_digit(decimal(created)[i - 8]));
        }
    }
    assert forall|i: int| 0 <= i < p2.len() implies #[trigger] p2[i] != ';' by {
        if 7 <= i < 7 + keyid.len() {
            assert(p2[i] == keyid[i - 7]);
        }
    }
    assert forall|i: int| 0 <= i < p3.len() implies #[trigger] p3[i] != ';' by {
        if 5 <= i < 5 + alg.len() {
            assert(p3[i] == alg[i - 5]);
        }
    }
}

proof fn lemma_split_parts(p1: Seq<char>, p2: Seq<char>, p3: Seq<char>)
    requires
        separator_free(p1),
        separator_free(p2),
        separator_free(p3),
    ensures
        split_on(seq![';'] + p1 + seq![';'] + p2 + seq![';'] + p3, ';') == seq![
            Seq::<char>::empty(),
            p1,
            p2,
            p3,
        ],
{
    let empty = Seq::<char>::empty();
    let semi = seq![';'];
    assert(semi + p1 + semi + p2 + semi + p3 =~= empty + semi + (p1 + semi + (p2 + semi + p3)));
    lemma_split_first(empty, p1 + semi + (p2 + semi + p3));
    lemma_split_first(p1, p2 + semi + p3);
    lemma_split_first(p2, p3);
    lemma_split_last(p3);
    assert(split_on(semi + p1 + semi + p2 + semi + p3, ';') =~= seq![empty, p1, p2, p3]);
}

proof fn lemma_read_keyid_part(keyid: Seq<char>)
    ensures
        !"created="@.is_prefix_of(keyid_part(keyid)),
        "keyid="@.is_prefix_of(keyid_part(keyid)),
        unquoted(keyid_part(keyid).skip("keyid="@.len() as int)) == Some(keyid),
{
    reveal_strlit("created=");
    reveal_strlit("keyid=");
    let p = keyid_part(keyid);
    assert(p[0] == 'k');
    assert("created="@[0] == 'c');
    assert(p.take(6) == "keyid="@);
    let quoted = seq!['"'] + keyid + seq!['"'];
    assert(p.skip(6) == quoted);
    assert(quoted.subrange(1, quoted.len() - 1) == keyid);
}

proof fn lemma_read_alg_part(alg: Seq<char>)
    ensures
        !"created="@.is_prefix_of(alg_part(alg)),
        !"keyid="@.is_prefix_of(alg_part(alg)),
        "alg="@.is_prefix_of(alg_part(alg)),
        unquoted(alg_part(alg).skip("alg="@.len() as int)) == Some(alg),
{
    reveal_strlit("created=");
    reveal_strlit("keyid=");
    reveal_strlit("alg=");
    let p = alg_part(alg);
    assert(p[0] == 'a');
    assert("created="@[0] == 'c');
    assert("keyid="@[0] == 'k');
    assert(p.take(4) == "alg="@);
    let quoted = seq!['"'] + alg + seq!['"'];
    assert(p.skip(4) == quoted);
    assert(quoted.subrange(1, quoted.len() - 1) == alg);
}

proof fn lemma_read_parts(created: nat, keyid: Seq<char>, alg: Seq<char>)
    requires
        created <= u64::MAX,
    ensures
        params_read(
            seq![
                Seq::<char>::empty(),
                created_part(created),
                keyid_part(keyid),
                alg_part(alg),
            ],
        ) == Some(
            ParamsRead { created: Some(created), keyid: Some(keyid), alg: Some(alg) },
        ),
{
    let p1 = created_part(created);
    let p2 = keyid_part(keyid);
    let p3 = alg_part(alg);
    let parts = seq![Seq::<char>::empty(), p1, p2, p3];
    assert("created="@.is_prefix_of(p1) && p1.skip("created="@.len() as int) == decimal(created))
        by {
        reveal_strlit("created=");
        assert(p1.take(8) == "created="@);
        assert(p1.skip(8) == decimal(created));
    }
    lemma_decimal_reads_back(created, u64::MAX as nat);
    lemma_read_keyid_part(keyid);
    lemma_read_alg_part(alg);
    let r0 = ParamsRead { created: None, keyid: None, alg: None };
    let r1 = ParamsRead { created: Some(created), keyid: None, alg: None };
    let r2 = ParamsRead { created: Some(created), keyid: Some(keyid), alg: None };
    assert(params_read(parts.take(0)) == Some(r0));
    assert(parts.take(1).drop_last() == parts.take(0));
    assert(params_read(parts.take(1)) == Some(r0));
    assert(parts.take(2).drop_last() == parts.take(1));
    assert(params_read(parts.take(2)) == Some(r1));
    assert(parts.take(3).drop_last() == parts.take(2));
    assert(params_read(parts.take(3)) == Some(r2));
    assert(parts.drop_last() == parts.take(3));
}

proof fn lemma_input_text(created: nat, keyid: Seq<char>, alg: Seq<char>)
    ensures
        signature_input_text(created, keyid, alg) == "dns=(\"content-digest\")"@ + (seq![';']
            + created_part(created) + seq![';'] + keyid_part(keyid) + seq![';'] + alg_part(alg)),
{
    reveal_strlit("dns=(\"content-digest\")");
    reveal_strlit("dns=(\"content-digest\");created=");
    reveal_strlit(";keyid=\"");
    reveal_strlit("\";alg=\"");
    reveal_strlit("\"");
    reveal_strlit("created=");
    reveal_strlit("keyid=");
    reveal_strlit("alg=");
    let semi = seq![';'];
    let quote = seq!['"'];
    let start = "dns=(\"content-digest\")"@;
    assert("dns=(\"content-digest\");created="@ == start + semi + "created="@);
    assert(";keyid=\""@ == semi + "keyid="@ + quote);
    assert("\";alg=\""@ == quote + semi + "alg="@ + quote);
    assert("\""@ == quote);
    assert(signature_input_text(created, keyid, alg) =~= start + (semi + created_part(created)
        + semi + keyid_part(keyid) + semi + alg_part(alg)));
}

/// Reading the signature input field made for some parameters gives the
/// parameters back, where no separator occurs in them.
pub proof fn law_signature_input_reads_back(created: nat, keyid: Seq<char>, alg: Seq<char>)
    requires
        created <= u64::MAX,
        separator_free(keyid),
        separator_free(alg),
    ensures
        parsed_input(signature_input_text(created, keyid, alg)) == Some(
            ParsedInput {
                signature_params: signature_input_text(created, keyid, alg).skip(
                    "dns="@.len() as int,
                ),
                alg,
                keyid,
            },
        ),
{
    let text = signature_input_text(created, keyid, alg);
    let prefix = "dns=(\"content-digest\")"@;
    let p1 = created_part(created);
    let p2 = keyid_part(keyid);
    let p3 = alg_part(alg);
    let params = seq![';'] + p1 + seq![';'] + p2 + seq![';'] + p3;
    lemma_input_text(created, keyid, alg);
    assert(text.take(prefix.len() as int) == prefix);
    assert(text.skip(prefix.len() as int) == params);
    lemma_parts_have_no_separator(created, keyid, alg);
    lemma_split_parts(p1, p2, p3);
    lemma_read_parts(created, keyid, alg);
    reveal_strlit("dns=");
    reveal_strlit("dns=(\"content-digest\")");
}

/// Fields made by signing are accepted exactly where the signature over the base
/// text is: what a publisher signs for a packet, a reader with its certificate
/// verifies.
pub proof fn law_signed_fields_verify(
    dns: Seq<u8>,
    cert: Seq<u8>,
    scheme: SignatureScheme,
    created: nat,
    signature: Seq<u8>,
)
    requires
        created <= u64::MAX,
        alg_name(scheme) is Some,
        digest_check(digest_text(dns), dns) is Ok,
        signature_in(signature_text(signature)) == Ok::<_, SignatureFault>(signature),
    ensures
        verification(
            completed(signing_request(dns, cert, scheme, created), signature),
            dns,
            cert,
        ) == certificate_verification(
            cert,
            scheme,
            signing_request(dns, cert, scheme, created).signature_base,
            signature,
        ),
{
    let request = signing_request(dns, cert, scheme, created);
    let fields = completed(request, signature);
    encode_utf8_valid_utf8(request.content_digest);
    encode_utf8_valid_utf8(request.signature_input);
    encode_utf8_valid_utf8(signature_text(signature));
    encode_utf8_decode_utf8(request.content_digest);
    encode_utf8_decode_utf8(request.signature_input);
    encode_utf8_decode_utf8(signature_text(signature));
    lemma_keyid_has_no_separator(cert);
    lemma_alg_has_no_separator(scheme);
    law_signature_input_reads_back(created, keyid(cert), alg_name(scheme)->0);
    let named = choose|s: SignatureScheme| alg_name(s) == Some(alg_name(scheme)->0);
    assert(alg_name(scheme) == Some(alg_name(scheme)->0));
    sigin::law_alg_names_are_unique(scheme, named);
    assert(fields.content_digest.len() > 0) by {
        reveal_strlit("sha-256=:");
        assert(request.content_digest.len() > 0);
        if fields.content_digest.len() == 0 {
            assert(decode_utf8(fields.content_digest).len() == 0);
        }
    }
}

proof fn lemma_enclosed_is_between(text: Seq<char>, prefix: Seq<char>)
    ensures
        enclosed(text, prefix) matches Some(inner) ==> text == prefix + inner + ":"@,
{
    reveal_strlit(":");
    if let Some(inner) = enclosed(text, prefix) {
        let rest = text.skip(prefix.len() as int);
        assert(":"@ =~= rest.subrange(rest.len() - 1, rest.len() as int));
        assert(rest =~= inner + ":"@);
        assert(prefix =~= text.subrange(0, prefix.len() as int));
        assert(text =~= prefix + rest);
        assert(text =~= prefix + inner + ":"@);
    }
}

/// Signature fields verify only where they are over the packet and from the certificate: the
/// digest is that of the packet, the key is named by the digest of the certificate, and the
/// key in the certificate accepts the signature over the digest and the parameters.
pub proof fn law_verified_fields_are_over_the_packet(
    fields: SignatureFieldsModel,
    dns: Seq<u8>,
    cert: Seq<u8>,
)
    requires
        verification(fields, dns, cert) == Ok::<bool, SignatureFault>(true),
    ensures
        valid_utf8(fields.content_digest),
        valid_utf8(fields.signature_input),
        valid_utf8(fields.signature),
        exists|encoded: Seq<char>|
            decode_utf8(fields.content_digest) == "sha-256=:"@ + encoded + ":"@
                && #[trigger] base64_decode(encoded) == Some(sha256(dns)),
        exists|encoded: Seq<char>, signature: Seq<u8>, input: ParsedInput, spki: Seq<u8>|
            decode_utf8(fields.signature) == "dns=:"@ + encoded + ":"@
                && #[trigger] base64_decode(encoded) == Some(signature) && parsed_input(
                decode_utf8(fields.signature_input),
            ) == Some(input) && input.keyid == "sha256:"@ + hex(sha256(cert)) && certificate_spki(
                cert,
            ) == Ok::<_, Seq<char>>(spki) && spki_parts(spki) is Some
                && #[trigger] signature_accepted(
                input.alg,
                (spki_parts(spki)->0).2,
                encode_utf8(
                    "\"content-digest\": "@ + decode_utf8(fields.content_digest)
                        + "\n\"@signature-params\": "@ + input.signature_params,
                ),
                signature,
            ),
{
    let digest = decode_utf8(fields.content_digest);
    let text = decode_utf8(fields.signature);
    lemma_enclosed_is_between(digest, "sha-256=:"@);
    let encoded = enclosed(digest, "sha-256=:"@)->0;
    assert(base64_decode(encoded) == Some(sha256(dns)));
    let input = parsed_input(decode_utf8(fields.signature_input))->0;
    let scheme = choose|s: SignatureScheme| alg_name(s) == Some(input.alg);
    lemma_enclosed_is_between(text, "dns=:"@);
    let inner = enclosed(text, "dns=:"@)->0;
    let signature = base64_decode(inner)->0;
    let spki = certificate_spki(cert)->Ok_0;
    assert(base64_decode(inner) == Some(signature));
    assert(signature_accepted(
        input.alg,
        (spki_parts(spki)->0).2,
        encode_utf8(
            "\"content-digest\": "@ + digest + "\n\"@signature-params\": "@
                + input.signature_params,
        ),
        signature,
    ));
}

/// Fields that are made for a packet and a certificate, with a scheme and a time, verify
/// exactly where the key in the certificate accepts the signature.
pub proof fn law_fields_verify_as_the_key_accepts(
    dns: Seq<u8>,
    cert: Seq<u8>,
    scheme: SignatureScheme,
    created: nat,
    signature: Seq<u8>,
)
    requires
        created <= u64::MAX,
        alg_name(scheme) is Some,
    ensures
        ({
            let digest = "sha-256=:"@ + base64_encode(sha256(dns)) + ":"@;
            let params = "(\"content-digest\");created="@ + decimal(created) + ";keyid=\""@
                + "sha256:"@ + hex(sha256(cert)) + "\";alg=\""@ + alg_name(scheme)->0 + "\""@;
            let base = "\"content-digest\": "@ + digest + "\n\"@signature-params\": "@ + params;
            let fields = SignatureFieldsModel {
                content_digest: encode_utf8(digest),
                signature_input: encode_utf8("dns="@ + params),
                signature: encode_utf8("dns=:"@ + base64_encode(signature) + ":"@),
            };
            base64_decode(base64_encode(sha256(dns))) == Some(sha256(dns)) && base64_decode(
                base64_encode(signature),
            ) == Some(signature) ==> match certificate_spki(cert) {
                Ok(spki) => match spki_parts(spki) {
                    Some((_, _, key)) => verification(fields, dns, cert) == Ok::<
                        bool,
                        SignatureFault,
                    >(signature_accepted(alg_name(scheme)->0, key, encode_utf8(base), signature)),
                    None => verification(fields, dns, cert) == Ok::<bool, SignatureFault>(false),
                },
                Err(details) => verification(fields, dns, cert) == Err::<bool, _>(
                    SignatureFault::InvalidCertificate { details },
                ),
            }
        }),
{
    if base64_decode(base64_encode(sha256(dns))) == Some(sha256(dns)) && base64_decode(
        base64_encode(signature),
    ) == Some(signature) {
        let params = "(\"content-digest\");created="@ + decimal(created) + ";keyid=\""@
            + "sha256:"@ + hex(sha256(cert)) + "\";alg=\""@ + alg_name(scheme)->0 + "\""@;
        lemma_enclosed("sha-256=:"@, base64_encode(sha256(dns)));
        lemma_enclosed("dns=:"@, base64_encode(signature));
        law_signed_fields_verify(dns, cert, scheme, created, signature);
        let request = signing_request(dns, cert, scheme, created);
        reveal_strlit("dns=(\"content-digest\");created=");
        reveal_strlit("(\"content-digest\");created=");
        reveal_strlit("dns=");
        assert("dns=(\"content-digest\");created="@ =~= "dns="@
            + "(\"content-digest\");created="@);
        assert(request.signature_input =~= "dns="@ + params);
        assert(request.signature_input.skip("dns="@.len() as int) =~= params);
    }
}

/// Fields that were made for another packet do not verify, nor do those that name another
/// certificate, nor those that carry nothing.
pub proof fn law_fields_for_something_else_do_not_verify(
    fields: SignatureFieldsModel,
    dns: Seq<u8>,
    other: Seq<u8>,
    cert: Seq<u8>,
    stranger: Seq<u8>,
)
    ensures
        verification(fields, dns, cert) == Ok::<bool, SignatureFault>(true) && sha256(other)
            != sha256(dns) ==> verification(fields, other, cert) == Err::<bool, _>(
            SignatureFault::DigestMismatch,
        ),
        verification(fields, dns, cert) == Ok::<bool, SignatureFault>(true) && sha256(stranger)
            != sha256(cert) ==> verification(fields, dns, stranger) == Ok::<bool, SignatureFault>(
            false,
        ),
        fields.content_digest.len() == 0 && fields.signature_input.len() == 0
            && fields.signature.len() == 0 ==> verification(fields, dns, cert) == Ok::<
            bool,
            SignatureFault,
        >(false),
{
    if fields.content_digest.len() == 0 && fields.signature_input.len() == 0
        && fields.signature.len() == 0 {
        assert(fields.content_digest =~= Seq::<u8>::empty());
        assert(fields.signature_input =~= Seq::<u8>::empty());
        assert(fields.signature =~= Seq::<u8>::empty());
    }
    if sha256(stranger) != sha256(cert) {
        law_bytes_are_written_in_hexadecimal_digits(sha256(stranger), sha256(cert));
        let n = "sha256:"@.len() as int;
        assert(keyid(stranger).skip(n) =~= hex(sha256(stranger)));
        assert(keyid(cert).skip(n) =~= hex(sha256(cert)));
    }
}

/// Each parameter of a signature is read by its name, a later one in place of an earlier one.
/// An empty one is passed over, and one with another name is refused.
pub proof fn law_parameters_are_read_by_their_names(
    params: Seq<Seq<char>>,
    text: Seq<char>,
    other: Seq<char>,
    n: nat,
)
    requires
        n <= u64::MAX,
    ensures
        params_read(Seq::<Seq<char>>::empty()) == Some(
            ParamsRead { created: None, keyid: None, alg: None },
        ),
        params_read(params) is None ==> params_read(params.push(text)) is None,
        params_read(params) matches Some(read) ==> {
            &&& params_read(params.push(Seq::<char>::empty())) == Some(read)
            &&& params_read(params.push("created="@ + decimal(n))) == Some(
                ParamsRead { created: Some(n), ..read },
            )
            &&& params_read(params.push("keyid=\""@ + text + "\""@)) == Some(
                ParamsRead { keyid: Some(text), ..read },
            )
            &&& params_read(params.push("alg=\""@ + text + "\""@)) == Some(
                ParamsRead { alg: Some(text), ..read },
            )
            &&& other.len() > 0 && !"created="@.is_prefix_of(other) && !"keyid="@.is_prefix_of(
                other,
            ) && !"alg="@.is_prefix_of(other) ==> params_read(params.push(other)) is None
        },
{
    reveal_strlit("created=");
    reveal_strlit("keyid=");
    reveal_strlit("alg=");
    reveal_strlit("keyid=\"");
    reveal_strlit("alg=\"");
    reveal_strlit("\"");
    assert(params.push(text).drop_last() =~= params);
    assert(params.push(other).drop_last() =~= params);
    assert(params.push(Seq::<char>::empty()).drop_last() =~= params);
    let created = "created="@ + decimal(n);
    assert(params.push(created).drop_last() =~= params);
    assert("created="@ =~= created.subrange(0, 8));
    assert(created.skip(8) =~= decimal(n));
    lemma_decimal_reads_back(n, u64::MAX as nat);
    let keyid = "keyid=\""@ + text + "\""@;
    assert(params.push(keyid).drop_last() =~= params);
    assert(keyid =~= keyid_part(text));
    lemma_read_keyid_part(text);
    let alg = "alg=\""@ + text + "\""@;
    assert(params.push(alg).drop_last() =~= params);
    assert(alg =~= alg_part(text));
    lemma_read_alg_part(text);
}

/// A signature input is read where it covers the digest of the content and has all three
/// parameters, and it is refused otherwise.
pub proof fn law_signature_inputs_have_all_parameters(
    input: Seq<char>,
    params: Seq<char>,
)
    ensures
        !"dns=(\"content-digest\")"@.is_prefix_of(input) ==> parsed_input(input) is None,
        match params_read(split_on(params, ';')) {
            Some(read) => if read.created is Some && read.keyid is Some && read.alg is Some {
                parsed_input("dns=(\"content-digest\")"@ + params) == Some(
                    ParsedInput {
                        signature_params: "(\"content-digest\")"@ + params,
                        alg: read.alg->0,
                        keyid: read.keyid->0,
                    },
                )
            } else {
                parsed_input("dns=(\"content-digest\")"@ + params) is None
            },
            None => parsed_input("dns=(\"content-digest\")"@ + params) is None,
        },
{
    reveal_strlit("dns=(\"content-digest\")");
    reveal_strlit("(\"content-digest\")");
    reveal_strlit("dns=");
    let prefix = "dns=(\"content-digest\")"@;
    let whole = prefix + params;
    assert(prefix =~= whole.subrange(0, prefix.len() as int));
    assert(whole.skip(prefix.len() as int) =~= params);
    assert(whole.skip("dns="@.len() as int) =~= "(\"content-digest\")"@ + params);
}

/// Quotes are taken off where they stand on both sides, and nothing else is quoted.
pub proof fn law_quotes_are_taken_off(text: Seq<char>)
    ensures
        unquoted(seq!['"'] + text + seq!['"']) == Some(text),
        unquoted(text) matches Some(inner) ==> text == seq!['"'] + inner + seq!['"'],
{
    let quoted = seq!['"'] + text + seq!['"'];
    assert(quoted.subrange(1, quoted.len() - 1) =~= text);
    if let Some(inner) = unquoted(text) {
        assert(text =~= seq!['"'] + inner + seq!['"']);
    }
}

/// Every error stands for the fault of its own kind.
pub proof fn law_errors_stand_for_their_faults(error: SignatureFieldsError)
    ensures
        error is MissingCertificate <==> error@ is MissingCertificate,
        error is UnsupportedScheme <==> error@ is UnsupportedScheme,
        error is UnsupportedAlgorithm <==> error@ is UnsupportedAlgorithm,
        error is InvalidField <==> error@ is InvalidField,
        error is InvalidUtf8 <==> error@ is InvalidUtf8,
        error is InvalidBase64 <==> error@ is InvalidBase64,
        error is DigestMismatch <==> error@ is DigestMismatch,
        error is InvalidCertificate <==> error@ is InvalidCertificate,
        error is Verify <==> error@ is Verify,
{
}

/// A field that is not written as it should be is refused by its name, and one that is not in
/// base64 for that.
pub proof fn law_malformed_fields_are_refused(text: Seq<char>, encoded: Seq<char>, dns: Seq<u8>)
    ensures
        !"sha-256=:"@.is_prefix_of(text) ==> digest_check(text, dns) == Err::<(), _>(
            SignatureFault::InvalidField { field: "content-digest"@ },
        ),
        !"dns=:"@.is_prefix_of(text) ==> signature_in(text) == Err::<Seq<u8>, _>(
            SignatureFault::InvalidField { field: "signature"@ },
        ),
        base64_decode(encoded) is None ==> digest_check("sha-256=:"@ + encoded + ":"@, dns)
            == Err::<(), _>(SignatureFault::InvalidBase64),
        base64_decode(encoded) is None ==> signature_in("dns=:"@ + encoded + ":"@) == Err::<
            Seq<u8>,
            _,
        >(SignatureFault::InvalidBase64),
        base64_decode(encoded) matches Some(bytes) ==> signature_in("dns=:"@ + encoded + ":"@)
            == Ok::<_, SignatureFault>(bytes),
        base64_decode(encoded) == Some(sha256(dns)) ==> digest_check(
            "sha-256=:"@ + encoded + ":"@,
            dns,
        ) is Ok,
{
    lemma_enclosed("sha-256=:"@, encoded);
    lemma_enclosed("dns=:"@, encoded);
}

/// An outcome is told with its own value, or with the fault that its error stands for.
pub proof fn law_outcomes_are_told_as_they_are(value: bool, error: SignatureFieldsError)
    ensures
        outcome(Ok::<bool, SignatureFieldsError>(value)) == Ok::<bool, SignatureFault>(value),
        outcome(Err::<bool, SignatureFieldsError>(error)) == Err::<bool, SignatureFault>(error@),
{
}

} // verus!
