//! When the stapled OCSP response is refreshed.
use vstd::prelude::*;

use crate::foreign::{pem_certificates, read_pem_certificates, url_parts, UrlParts};
use crate::protocol::wire::views;
use crate::text::{chars_of, text_eq};

verus! {

pub const DEFAULT_OCSP_RESPONDER_BASE_URL: &'static str = "https://license.genmeta.net";

/// How long a response is stapled, in seconds.
pub const OCSP_STAPLING_TTL_SECS: u64 = 10_800;

/// How long before its end a response is refreshed, in seconds.
pub const OCSP_REFRESH_EXPIRY_SKEW_SECS: u64 = 300;

/// After how many seconds a failed refresh is tried again.
pub const OCSP_REFRESH_RETRY_DELAY_SECS: u64 = 300;

/// After how many seconds a response is refreshed.
pub fn refresh_success_delay() -> (r: u64)
    ensures
        r == OCSP_STAPLING_TTL_SECS - OCSP_REFRESH_EXPIRY_SKEW_SECS,
        r == 10_500,
{
    OCSP_STAPLING_TTL_SECS - OCSP_REFRESH_EXPIRY_SKEW_SECS
}

/// What became of a refresh.
#[derive(Debug, Clone, Copy, PartialEq, Eq, Structural)]
pub enum RefreshOutcome {
    FetchFailed,
    ValidationFailed,
    Good,
    Unknown,
    Revoked,
}

/// What follows from a refresh.
#[derive(Debug, Clone, Copy, PartialEq, Eq, Structural)]
pub struct RefreshDecision {
    /// Whether the response is stapled.
    pub staple: bool,
    /// After how many seconds the next refresh is due.
    pub delay_secs: u64,
}

/// Decides what follows from a refresh: only a good response is stapled, and anything
/// else is tried again soon.
pub fn refresh_decision(outcome: RefreshOutcome) -> (r: RefreshDecision)
    ensures
        r.staple == (outcome is Good),
        r.delay_secs == (if outcome is Good {
            10_500u64
        } else {
            OCSP_REFRESH_RETRY_DELAY_SECS
        }),
        !(outcome is Good) ==> r.delay_secs == 300,
{
    match outcome {
        RefreshOutcome::Good => RefreshDecision {
            staple: true,
            delay_secs: refresh_success_delay(),
        },
        _ => RefreshDecision { staple: false, delay_secs: OCSP_REFRESH_RETRY_DELAY_SECS },
    }
}

/// Why the OCSP refresh cannot be set up.
#[derive(Debug, Clone, Copy, PartialEq, Eq, Structural)]
pub enum OcspConfigError {
    InvalidUrl,
    NotHttps,
    MissingHost,
    MissingCertificate,
    MissingIssuer,
    EmptyIssuer,
}

impl OcspConfigError {
    pub open spec fn text(self) -> Seq<char> {
        match self {
            OcspConfigError::InvalidUrl => "ocsp_responder_base_url is not a URL"@,
            OcspConfigError::NotHttps => "ocsp_responder_base_url must use https"@,
            OcspConfigError::MissingHost => "ocsp_responder_base_url must include a host"@,
            OcspConfigError::MissingCertificate =>
                "server certificate PEM does not contain a certificate"@,
            OcspConfigError::MissingIssuer =>
                "OCSP auto-refresh requires the server cert PEM to include the issuer cert or ocsp_issuer_cert to be configured"@,
            OcspConfigError::EmptyIssuer => "ocsp_issuer_cert does not contain a certificate"@,
        }
    }

    pub fn message(&self) -> (r: &'static str)
        ensures
            r@ == self.text(),
    {
        match self {
            OcspConfigError::InvalidUrl => "ocsp_responder_base_url is not a URL",
            OcspConfigError::NotHttps => "ocsp_responder_base_url must use https",
            OcspConfigError::MissingHost => "ocsp_responder_base_url must include a host",
            OcspConfigError::MissingCertificate =>
                "server certificate PEM does not contain a certificate",
            OcspConfigError::MissingIssuer =>
                "OCSP auto-refresh requires the server cert PEM to include the issuer cert or ocsp_issuer_cert to be configured",
            OcspConfigError::EmptyIssuer => "ocsp_issuer_cert does not contain a certificate",
        }
    }
}

/// `s` without slashes at its end.
pub open spec fn without_slashes(s: Seq<char>) -> Seq<char>
    decreases s.len(),
{
    if s.len() > 0 && s.last() == '/' {
        without_slashes(s.drop_last())
    } else {
        s
    }
}

/// The URL of the responder under a base URL.
pub open spec fn responder_url(base_url: Seq<char>) -> Result<Seq<char>, OcspConfigError> {
    match url_parts(base_url) {
        None => Err(OcspConfigError::InvalidUrl),
        Some(url) => if url.scheme != "https"@ {
            Err(OcspConfigError::NotHttps)
        } else if url.host is None {
            Err(OcspConfigError::MissingHost)
        } else {
            Ok(without_slashes(url.text) + "/ocsp"@)
        },
    }
}

/// The URL of the responder under a base URL.
pub fn normalize_base_url(base_url: &str) -> (r: Result<String, OcspConfigError>)
    ensures
        responder_url(base_url@) == (match r {
            Ok(url) => Ok(url@),
            Err(e) => Err(e),
        }),
{
    let url = match UrlParts::parse(base_url) {
        Some(url) => url,
        None => return Err(OcspConfigError::InvalidUrl),
    };
    if !text_eq(url.scheme.as_str(), "https") {
        return Err(OcspConfigError::NotHttps);
    }
    if url.host.is_none() {
        return Err(OcspConfigError::MissingHost);
    }
    let text = url.text.as_str();
    let chars = chars_of(text);
    let mut n: usize = chars.len();
    assert(text@.take(n as int) =~= text@);
    while n > 0 && chars[n - 1] == '/'
        invariant
            chars@ == text@,
            n <= chars@.len(),
            without_slashes(text@) == without_slashes(text@.take(n as int)),
        decreases n,
    {
        assert(text@.take(n as int).last() == chars@[n - 1]);
        assert(text@.take(n as int).drop_last() =~= text@.take(n - 1));
        n = n - 1;
    }
    assert(without_slashes(text@) == text@.take(n as int)) by {
        if n > 0 {
            assert(text@.take(n as int).last() == chars@[n - 1]);
        }
    }
    let base = text.substring_char(0, n);
    assert(base@ =~= text@.take(n as int));
    Ok(crate::text::join2(base, "/ocsp"))
}

/// The certificate to ask about and its issuer: the first two of the chain. Where the
/// chain has no second one, the issuer is the first of the configured certificates.
pub fn ocsp_certificates(chain: &Vec<Vec<u8>>, issuer_override: Option<&Vec<Vec<u8>>>) -> (r: Result<
    (Vec<u8>, Vec<u8>),
    OcspConfigError,
>)
    ensures
        match r {
            Ok((leaf, issuer)) => chain@.len() > 0 && leaf@ == chain@[0]@ && (if chain@.len()
                > 1 {
                issuer@ == chain@[1]@
            } else {
                issuer_override is Some && (issuer_override->0)@.len() > 0 && issuer@ == (
                issuer_override->0)@[0]@
            }),
            Err(e) => if chain@.len() == 0 {
                e is MissingCertificate
            } else {
                chain@.len() == 1 && match issuer_override {
                    None => e is MissingIssuer,
                    Some(issuers) => issuers@.len() == 0 && e is EmptyIssuer,
                }
            },
        },
{
    if chain.is_empty() {
        return Err(OcspConfigError::MissingCertificate);
    }
    let leaf = vstd::slice::slice_to_vec(chain[0].as_slice());
    if chain.len() > 1 {
        return Ok((leaf, vstd::slice::slice_to_vec(chain[1].as_slice())));
    }
    match issuer_override {
        None => Err(OcspConfigError::MissingIssuer),
        Some(issuers) => if issuers.is_empty() {
            Err(OcspConfigError::EmptyIssuer)
        } else {
            Ok((leaf, vstd::slice::slice_to_vec(issuers[0].as_slice())))
        },
    }
}

/// Why the certificates for the OCSP refresh could not be read.
#[derive(Debug, PartialEq, Eq)]
pub enum OcspCertificatesError {
    /// A file is no PEM file, and why.
    Pem { message: String },
    Config { source: OcspConfigError },
}

/// The certificates of a PEM file, in order.
pub fn load_pem_certificates(pem: &[u8]) -> (r: Result<Vec<Vec<u8>>, OcspCertificatesError>)
    ensures
        match r {
            Ok(certs) => pem_certificates(pem@) == Ok::<_, Seq<char>>(views(certs@)),
            Err(OcspCertificatesError::Pem { message }) => pem_certificates(pem@) == Err::<
                Seq<Seq<u8>>,
                _,
            >(message@),
            Err(_) => false,
        },
{
    match read_pem_certificates(pem) {
        Ok(certs) => Ok(certs),
        Err(message) => Err(OcspCertificatesError::Pem { message }),
    }
}

/// Whether the issuer is to be read from a file of its own: the chain of the server names
/// none.
pub open spec fn issuer_is_elsewhere(cert_pem: Seq<u8>) -> bool {
    pem_certificates(cert_pem) matches Ok(certs) && certs.len() == 1
}

/// The certificate to ask about and its issuer, from the certificate file of the server and
/// that of the issuer. The latter is read only where the former names no issuer.
pub fn build_ocsp_request_context(cert_pem: &[u8], issuer_pem: Option<&Vec<u8>>) -> (r: Result<
    (Vec<u8>, Vec<u8>),
    OcspCertificatesError,
>)
    ensures
        match (r, pem_certificates(cert_pem@)) {
            (Err(OcspCertificatesError::Pem { message }), Err(details)) => message@ == details,
            (r, Ok(chain)) => if issuer_is_elsewhere(cert_pem@) && issuer_pem is Some {
                match (r, pem_certificates((issuer_pem->0)@)) {
                    (Err(OcspCertificatesError::Pem { message }), Err(details)) => message@
                        == details,
                    (Ok((leaf, issuer)), Ok(issuers)) => issuers.len() > 0 && leaf@ == chain[0]
                        && issuer@ == issuers[0],
                    (Err(OcspCertificatesError::Config { source }), Ok(issuers)) => issuers.len()
                        == 0 && source is EmptyIssuer,
                    _ => false,
                }
            } else {
                match r {
                    Ok((leaf, issuer)) => chain.len() > 1 && leaf@ == chain[0] && issuer@
                        == chain[1],
                    Err(OcspCertificatesError::Config { source }) => chain.len() <= 1 && source
                        == (if chain.len() == 0 {
                        OcspConfigError::MissingCertificate
                    } else {
                        OcspConfigError::MissingIssuer
                    }),
                    Err(_) => false,
                }
            },
            _ => false,
        },
{
    let chain = match load_pem_certificates(cert_pem) {
        Ok(chain) => chain,
        Err(e) => return Err(e),
    };
    let ghost certs = views(chain@);
    assert(certs.len() == chain@.len());
    assert(forall|i: int| 0 <= i < chain@.len() ==> certs[i] == (#[trigger] chain@[i])@);
    let found = if chain.len() == 1 {
        match issuer_pem {
            Some(pem) => match load_pem_certificates(pem.as_slice()) {
                Ok(issuers) => {
                    assert(views(issuers@).len() == issuers@.len());
                    assert(issuers@.len() > 0 ==> views(issuers@)[0] == issuers@[0]@);
                    ocsp_certificates(&chain, Some(&issuers))
                },
                Err(e) => return Err(e),
            },
            None => ocsp_certificates(&chain, None),
        }
    } else {
        ocsp_certificates(&chain, None)
    };
    match found {
        Ok(pair) => Ok(pair),
        Err(source) => Err(OcspCertificatesError::Config { source }),
    }
}

/// The body of a response of the responder, or why it is of no use.
pub fn ocsp_body(success: bool, status: &str, text: &str, body: Vec<u8>) -> (r: Result<
    Vec<u8>,
    String,
>)
    ensures
        match r {
            Ok(bytes) => success && body@.len() > 0 && bytes@ == body@,
            Err(message) => if !success {
                message@ == "OCSP responder returned HTTP status "@ + status@ + ": "@ + text@
            } else {
                body@.len() == 0 && message@ == "OCSP responder returned an empty body"@
            },
        },
{
    if !success {
        let mut message = String::new();
        message.append("OCSP responder returned HTTP status ");
        message.append(status);
        message.append(": ");
        message.append(text);
        assert(message@ =~= "OCSP responder returned HTTP status "@ + status@ + ": "@ + text@);
        return Err(message);
    }
    if body.is_empty() {
        return Err("OCSP responder returned an empty body".to_owned());
    }
    Ok(body)
}

proof fn lemma_without_slashes(s: Seq<char>)
    ensures
        without_slashes(s).len() <= s.len(),
        without_slashes(s) == s.take(without_slashes(s).len() as int),
        without_slashes(s).len() > 0 ==> without_slashes(s).last() != '/',
        forall|i: int| without_slashes(s).len() <= i < s.len() ==> s[i] == '/',
    decreases s.len(),
{
    if s.len() > 0 && s.last() == '/' {
        let front = s.drop_last();
        lemma_without_slashes(front);
        assert(front.take(without_slashes(front).len() as int) =~= s.take(
            without_slashes(front).len() as int,
        ));
        assert forall|i: int| without_slashes(s).len() <= i < s.len() implies s[i] == '/' by {
            if i < front.len() {
                assert(front[i] == s[i]);
            }
        }
    } else {
        assert(s.take(s.len() as int) =~= s);
    }
}

/// A responder is asked at its own path right below the base URL, with one slash between them.
/// The base URL has to be one over HTTPS, with a host.
pub proof fn law_responders_are_asked_below_the_base_url(
    base_url: Seq<char>,
    stem: Seq<char>,
    slashes: Seq<char>,
)
    ensures
        url_parts(base_url) is None ==> responder_url(base_url) == Err::<Seq<char>, _>(
            OcspConfigError::InvalidUrl,
        ),
        url_parts(base_url) matches Some(url) ==> {
            &&& url.scheme != seq!['h', 't', 't', 'p', 's'] ==> responder_url(base_url) == Err::<
                Seq<char>,
                _,
            >(OcspConfigError::NotHttps)
            &&& url.scheme == seq!['h', 't', 't', 'p', 's'] && url.host is None ==> responder_url(
                base_url,
            ) == Err::<Seq<char>, _>(OcspConfigError::MissingHost)
            &&& url.scheme == seq!['h', 't', 't', 'p', 's'] && url.host is Some && url.text == stem
                + slashes && (stem.len() == 0 || stem.last() != '/') && (forall|i: int|
                0 <= i < slashes.len() ==> #[trigger] slashes[i] == '/') ==> responder_url(base_url)
                == Ok::<_, OcspConfigError>(stem + seq!['/', 'o', 'c', 's', 'p'])
        },
{
    reveal_strlit("https");
    reveal_strlit("/ocsp");
    assert("https"@ =~= seq!['h', 't', 't', 'p', 's']);
    assert("/ocsp"@ =~= seq!['/', 'o', 'c', 's', 'p']);
    if let Some(url) = url_parts(base_url) {
        lemma_without_slashes(url.text);
        if url.text == stem + slashes && (stem.len() == 0 || stem.last() != '/') && (forall|i: int|
            0 <= i < slashes.len() ==> #[trigger] slashes[i] == '/') {
            let n = without_slashes(url.text).len() as int;
            if n > stem.len() {
                assert(url.text[n - 1] == slashes[n - 1 - stem.len()]);
                assert(without_slashes(url.text).last() == url.text[n - 1]);
            }
            if n < stem.len() {
                assert(url.text[stem.len() - 1] == stem.last());
            }
            assert(without_slashes(url.text) =~= stem);
        }
    }
}

/// The issuer has to be given elsewhere where a file holds one certificate alone.
pub proof fn law_issuers_are_elsewhere_of_lone_certificates(pem: Seq<u8>)
    ensures
        pem_certificates(pem) matches Ok(certs) ==> (issuer_is_elsewhere(pem) <==> certs.len()
            == 1),
        pem_certificates(pem) is Err ==> !issuer_is_elsewhere(pem),
{
}

} // verus!
