//! Signature schemes: their names, the scheme that a public key calls for, and
//! the check of a signature.
use vstd::prelude::*;

use crate::foreign::{digestible, signature_accepted, spki_parts, verify_with_scheme, SpkiParts};
use crate::text::{bytes_eq, text_eq};

verus! {

/// A signature scheme. The schemes in use have a variant of their own, any other
/// one is known by its code.
#[allow(non_camel_case_types)]
#[derive(Debug, Clone, Copy, PartialEq, Eq, Structural)]
pub enum SignatureScheme {
    ED25519,
    ECDSA_NISTP256_SHA256,
    ECDSA_NISTP384_SHA384,
    RSA_PSS_SHA256,
    RSA_PSS_SHA384,
    RSA_PSS_SHA512,
    RSA_PKCS1_SHA256,
    RSA_PKCS1_SHA384,
    RSA_PKCS1_SHA512,
    Unknown(u16),
}

/// The algorithm of a private key.
#[derive(Debug, Clone, Copy, PartialEq, Eq, Structural)]
pub enum SignatureAlgorithm {
    RSA,
    ECDSA,
    ED25519,
    Other,
}

/// The schemes in the order in which they are preferred.
pub open spec fn scheme_preference() -> Seq<SignatureScheme> {
    seq![
        SignatureScheme::ED25519,
        SignatureScheme::ECDSA_NISTP256_SHA256,
        SignatureScheme::ECDSA_NISTP384_SHA384,
        SignatureScheme::RSA_PSS_SHA256,
        SignatureScheme::RSA_PSS_SHA384,
        SignatureScheme::RSA_PSS_SHA512,
        SignatureScheme::RSA_PKCS1_SHA256,
        SignatureScheme::RSA_PKCS1_SHA384,
        SignatureScheme::RSA_PKCS1_SHA512,
    ]
}

/// The schemes in the order in which they are preferred.
pub fn signature_scheme_preference() -> (r: Vec<SignatureScheme>)
    ensures
        r@ == scheme_preference(),
{
    vec![
        SignatureScheme::ED25519,
        SignatureScheme::ECDSA_NISTP256_SHA256,
        SignatureScheme::ECDSA_NISTP384_SHA384,
        SignatureScheme::RSA_PSS_SHA256,
        SignatureScheme::RSA_PSS_SHA384,
        SignatureScheme::RSA_PSS_SHA512,
        SignatureScheme::RSA_PKCS1_SHA256,
        SignatureScheme::RSA_PKCS1_SHA384,
        SignatureScheme::RSA_PKCS1_SHA512,
    ]
}

/// Whether a key of this algorithm can sign with the scheme.
pub open spec fn scheme_suits(algorithm: SignatureAlgorithm, scheme: SignatureScheme) -> bool {
    match algorithm {
        SignatureAlgorithm::ED25519 => scheme is ED25519,
        SignatureAlgorithm::ECDSA => scheme is ECDSA_NISTP256_SHA256
            || scheme is ECDSA_NISTP384_SHA384,
        SignatureAlgorithm::RSA => scheme is RSA_PSS_SHA256 || scheme is RSA_PSS_SHA384
            || scheme is RSA_PSS_SHA512 || scheme is RSA_PKCS1_SHA256 || scheme is RSA_PKCS1_SHA384
            || scheme is RSA_PKCS1_SHA512,
        SignatureAlgorithm::Other => true,
    }
}

fn suits(algorithm: SignatureAlgorithm, scheme: SignatureScheme) -> (r: bool)
    ensures
        r == scheme_suits(algorithm, scheme),
{
    match algorithm {
        SignatureAlgorithm::ED25519 => matches!(scheme, SignatureScheme::ED25519),
        SignatureAlgorithm::ECDSA => matches!(
            scheme,
            SignatureScheme::ECDSA_NISTP256_SHA256 | SignatureScheme::ECDSA_NISTP384_SHA384
        ),
        SignatureAlgorithm::RSA => matches!(
            scheme,
            SignatureScheme::RSA_PSS_SHA256
                | SignatureScheme::RSA_PSS_SHA384
                | SignatureScheme::RSA_PSS_SHA512
                | SignatureScheme::RSA_PKCS1_SHA256
                | SignatureScheme::RSA_PKCS1_SHA384
                | SignatureScheme::RSA_PKCS1_SHA512
        ),
        SignatureAlgorithm::Other => true,
    }
}

/// The schemes that a key of this algorithm can sign with, the preferred first.
pub fn signature_schemes_for_algorithm(algorithm: SignatureAlgorithm) -> (r: Vec<SignatureScheme>)
    ensures
        r@ == scheme_preference().filter(|s: SignatureScheme| scheme_suits(algorithm, s)),
{
    let all = signature_scheme_preference();
    let ghost wanted = |s: SignatureScheme| scheme_suits(algorithm, s);
    let mut out: Vec<SignatureScheme> = Vec::new();
    let mut i: usize = 0;
    assert(all@.take(0).filter(wanted) == Seq::<SignatureScheme>::empty()) by {
        reveal(Seq::filter);
    }
    while i < all.len()
        invariant
            all@ == scheme_preference(),
            wanted == (|s: SignatureScheme| scheme_suits(algorithm, s)),
            i <= all@.len(),
            out@ == all@.take(i as int).filter(wanted),
        decreases all@.len() - i,
    {
        proof {
            assert(all@.take(i + 1) == all@.take(i as int).push(all@[i as int]));
            all@.take(i as int).lemma_filter_push(all@[i as int], wanted);
        }
        if suits(algorithm, all[i]) {
            out.push(all[i]);
        }
        i = i + 1;
    }
    assert(all@.take(i as int) == all@);
    out
}

/// The registered name of a scheme.
pub open spec fn alg_name(scheme: SignatureScheme) -> Option<Seq<char>> {
    match scheme {
        SignatureScheme::ED25519 => Some("ed25519"@),
        SignatureScheme::ECDSA_NISTP256_SHA256 => Some("ecdsa-p256-sha256"@),
        SignatureScheme::ECDSA_NISTP384_SHA384 => Some("ecdsa-p384-sha384"@),
        SignatureScheme::RSA_PSS_SHA256 => Some("rsa-pss-sha256"@),
        SignatureScheme::RSA_PSS_SHA384 => Some("rsa-pss-sha384"@),
        SignatureScheme::RSA_PSS_SHA512 => Some("rsa-pss-sha512"@),
        SignatureScheme::RSA_PKCS1_SHA256 => Some("rsa-v1_5-sha256"@),
        SignatureScheme::RSA_PKCS1_SHA384 => Some("rsa-v1_5-sha384"@),
        SignatureScheme::RSA_PKCS1_SHA512 => Some("rsa-v1_5-sha512"@),
        SignatureScheme::Unknown(_) => None,
    }
}

/// The registered name of a scheme, where it has one.
pub fn alg_name_for_scheme(scheme: SignatureScheme) -> (r: Option<&'static str>)
    ensures
        r is Some <==> alg_name(scheme) is Some,
        r is Some ==> Some((r->0)@) == alg_name(scheme),
{
    match scheme {
        SignatureScheme::ED25519 => Some("ed25519"),
        SignatureScheme::ECDSA_NISTP256_SHA256 => Some("ecdsa-p256-sha256"),
        SignatureScheme::ECDSA_NISTP384_SHA384 => Some("ecdsa-p384-sha384"),
        SignatureScheme::RSA_PSS_SHA256 => Some("rsa-pss-sha256"),
        SignatureScheme::RSA_PSS_SHA384 => Some("rsa-pss-sha384"),
        SignatureScheme::RSA_PSS_SHA512 => Some("rsa-pss-sha512"),
        SignatureScheme::RSA_PKCS1_SHA256 => Some("rsa-v1_5-sha256"),
        SignatureScheme::RSA_PKCS1_SHA384 => Some("rsa-v1_5-sha384"),
        SignatureScheme::RSA_PKCS1_SHA512 => Some("rsa-v1_5-sha512"),
        SignatureScheme::Unknown(_) => None,
    }
}

proof fn lemma_alg_names_differ()
    ensures
        "ed25519"@.len() == 7,
        "ecdsa-p256-sha256"@.len() == 17,
        "ecdsa-p384-sha384"@.len() == 17,
        "rsa-pss-sha256"@.len() == 14,
        "rsa-pss-sha384"@.len() == 14,
        "rsa-pss-sha512"@.len() == 14,
        "rsa-v1_5-sha256"@.len() == 15,
        "rsa-v1_5-sha384"@.len() == 15,
        "rsa-v1_5-sha512"@.len() == 15,
        "ecdsa-p256-sha256"@ != "ecdsa-p384-sha384"@,
        "rsa-pss-sha256"@ != "rsa-pss-sha384"@,
        "rsa-pss-sha256"@ != "rsa-pss-sha512"@,
        "rsa-pss-sha384"@ != "rsa-pss-sha512"@,
        "rsa-v1_5-sha256"@ != "rsa-v1_5-sha384"@,
        "rsa-v1_5-sha256"@ != "rsa-v1_5-sha512"@,
        "rsa-v1_5-sha384"@ != "rsa-v1_5-sha512"@,
{
    reveal_strlit("ed25519");
    reveal_strlit("ecdsa-p256-sha256");
    reveal_strlit("ecdsa-p384-sha384");
    reveal_strlit("rsa-pss-sha256");
    reveal_strlit("rsa-pss-sha384");
    reveal_strlit("rsa-pss-sha512");
    reveal_strlit("rsa-v1_5-sha256");
    reveal_strlit("rsa-v1_5-sha384");
    reveal_strlit("rsa-v1_5-sha512");
    assert("ecdsa-p256-sha256"@[7] == '2');
    assert("ecdsa-p384-sha384"@[7] == '3');
    assert("rsa-pss-sha256"@[11] == '2');
    assert("rsa-pss-sha384"@[11] == '3');
    assert("rsa-pss-sha512"@[11] == '5');
    assert("rsa-v1_5-sha256"@[12] == '2');
    assert("rsa-v1_5-sha384"@[12] == '3');
    assert("rsa-v1_5-sha512"@[12] == '5');
}

/// No two schemes share a name.
pub proof fn law_alg_names_are_unique(a: SignatureScheme, b: SignatureScheme)
    requires
        alg_name(a) is Some,
        alg_name(a) == alg_name(b),
    ensures
        a == b,
{
    lemma_alg_names_differ();
}

/// The scheme that goes by this name, where there is one.
pub fn scheme_for_alg_name(alg: &str) -> (r: Option<SignatureScheme>)
    ensures
        forall|s: SignatureScheme|
            #![trigger alg_name(s)]
            r == Some(s) <==> alg_name(s) == Some(alg@),
        r is Some ==> alg_name(r->0) == Some(alg@),
{
    proof {
        lemma_alg_names_differ();
    }
    if text_eq(alg, "ed25519") {
        Some(SignatureScheme::ED25519)
    } else if text_eq(alg, "ecdsa-p256-sha256") {
        Some(SignatureScheme::ECDSA_NISTP256_SHA256)
    } else if text_eq(alg, "ecdsa-p384-sha384") {
        Some(SignatureScheme::ECDSA_NISTP384_SHA384)
    } else if text_eq(alg, "rsa-pss-sha256") {
        Some(SignatureScheme::RSA_PSS_SHA256)
    } else if text_eq(alg, "rsa-pss-sha384") {
        Some(SignatureScheme::RSA_PSS_SHA384)
    } else if text_eq(alg, "rsa-pss-sha512") {
        Some(SignatureScheme::RSA_PSS_SHA512)
    } else if text_eq(alg, "rsa-v1_5-sha256") {
        Some(SignatureScheme::RSA_PKCS1_SHA256)
    } else if text_eq(alg, "rsa-v1_5-sha384") {
        Some(SignatureScheme::RSA_PKCS1_SHA384)
    } else if text_eq(alg, "rsa-v1_5-sha512") {
        Some(SignatureScheme::RSA_PKCS1_SHA512)
    } else {
        None
    }
}

/// The object identifier of Ed25519 keys, 1.3.101.112.
pub open spec fn ed25519_oid() -> Seq<u8> {
    seq![0x2b, 0x65, 0x70]
}

/// The object identifier of RSA keys, 1.2.840.113549.1.1.1.
pub open spec fn rsa_oid() -> Seq<u8> {
    seq![0x2a, 0x86, 0x48, 0x86, 0xf7, 0x0d, 0x01, 0x01, 0x01]
}

/// The object identifier of keys on elliptic curves, 1.2.840.10045.2.1.
pub open spec fn elliptic_curve_oid() -> Seq<u8> {
    seq![0x2a, 0x86, 0x48, 0xce, 0x3d, 0x02, 0x01]
}

/// The object identifier of the curve P-256, 1.2.840.10045.3.1.7.
pub open spec fn p256_oid() -> Seq<u8> {
    seq![0x2a, 0x86, 0x48, 0xce, 0x3d, 0x03, 0x01, 0x07]
}

/// The object identifier of the curve P-384, 1.3.132.0.34.
pub open spec fn p384_oid() -> Seq<u8> {
    seq![0x2b, 0x81, 0x04, 0x00, 0x22]
}

/// The scheme that a key of this kind signs with. The kind is given by the object
/// identifiers of the algorithm and, for an elliptic curve, of the curve.
pub open spec fn scheme_of_key(algorithm: Seq<u8>, curve: Option<Seq<u8>>) -> Option<
    SignatureScheme,
> {
    if algorithm == ed25519_oid() {
        Some(SignatureScheme::ED25519)
    } else if algorithm == rsa_oid() {
        Some(SignatureScheme::RSA_PSS_SHA512)
    } else if algorithm != elliptic_curve_oid() {
        None
    } else if curve == Some(p256_oid()) {
        Some(SignatureScheme::ECDSA_NISTP256_SHA256)
    } else if curve == Some(p384_oid()) {
        Some(SignatureScheme::ECDSA_NISTP384_SHA384)
    } else {
        None
    }
}

/// The scheme that a key of this kind signs with. See [`scheme_of_key`].
pub fn scheme_for_key_kind(algorithm: &[u8], curve: &Option<Vec<u8>>) -> (r: Option<
    SignatureScheme,
>)
    ensures
        r == scheme_of_key(
            algorithm@,
            match *curve {
                Some(c) => Some(c@),
                None => None,
            },
        ),
{
    let ed25519: [u8; 3] = [0x2b, 0x65, 0x70];
    let rsa: [u8; 9] = [0x2a, 0x86, 0x48, 0x86, 0xf7, 0x0d, 0x01, 0x01, 0x01];
    let elliptic_curve: [u8; 7] = [0x2a, 0x86, 0x48, 0xce, 0x3d, 0x02, 0x01];
    let p256: [u8; 8] = [0x2a, 0x86, 0x48, 0xce, 0x3d, 0x03, 0x01, 0x07];
    let p384: [u8; 5] = [0x2b, 0x81, 0x04, 0x00, 0x22];
    proof {
        assert(ed25519@ =~= ed25519_oid());
        assert(rsa@ =~= rsa_oid());
        assert(elliptic_curve@ =~= elliptic_curve_oid());
        assert(p256@ =~= p256_oid());
        assert(p384@ =~= p384_oid());
    }
    if bytes_eq(algorithm, ed25519.as_slice()) {
        return Some(SignatureScheme::ED25519);
    }
    if bytes_eq(algorithm, rsa.as_slice()) {
        return Some(SignatureScheme::RSA_PSS_SHA512);
    }
    if !bytes_eq(algorithm, elliptic_curve.as_slice()) {
        return None;
    }
    match curve {
        Some(curve) => if bytes_eq(curve.as_slice(), p256.as_slice()) {
            Some(SignatureScheme::ECDSA_NISTP256_SHA256)
        } else if bytes_eq(curve.as_slice(), p384.as_slice()) {
            Some(SignatureScheme::ECDSA_NISTP384_SHA384)
        } else {
            None
        },
        None => None,
    }
}

/// The scheme that the key in a subject public key info signs with.
pub open spec fn canonical_scheme(spki: Seq<u8>) -> Option<SignatureScheme> {
    match spki_parts(spki) {
        Some((algorithm, curve, _)) => scheme_of_key(algorithm, curve),
        None => None,
    }
}

/// The scheme that the key in a DER encoded subject public key info signs with.
pub fn canonical_scheme_for_spki(spki: &[u8]) -> (r: Option<SignatureScheme>)
    ensures
        r == canonical_scheme(spki@),
{
    match SpkiParts::read(spki) {
        Some(parts) => scheme_for_key_kind(parts.algorithm.as_slice(), &parts.curve),
        None => None,
    }
}

/// There is no signature scheme for a public key.
#[derive(Debug, Clone, Copy, PartialEq, Eq, Structural)]
pub enum SignatureSchemeError {
    UnsupportedKey,
}

impl SignatureSchemeError {
    pub fn message(&self) -> (r: &'static str)
        ensures
            r@ == "unsupported public key type"@,
    {
        "unsupported public key type"
    }
}

/// The scheme that the key in a DER encoded subject public key info signs with.
pub fn signature_scheme(spki: &[u8]) -> (r: Result<SignatureScheme, SignatureSchemeError>)
    ensures
        match canonical_scheme(spki@) {
            Some(scheme) => r == Ok::<_, SignatureSchemeError>(scheme),
            None => r == Err::<SignatureScheme, _>(SignatureSchemeError::UnsupportedKey),
        },
{
    match canonical_scheme_for_spki(spki) {
        Some(scheme) => Ok(scheme),
        None => Err(SignatureSchemeError::UnsupportedKey),
    }
}

/// Why a signature could not be checked.
#[derive(Debug, Clone, Copy, PartialEq, Eq, Structural)]
pub enum VerifyError {
    UnsupportedScheme { scheme: SignatureScheme },
}

/// The outcome of checking a signature under a scheme with the key in a subject
/// public key info. A key that cannot be read accepts nothing.
pub open spec fn verification(
    spki: Seq<u8>,
    scheme: SignatureScheme,
    data: Seq<u8>,
    signature: Seq<u8>,
) -> Result<bool, VerifyError> {
    if scheme is Unknown {
        Err(VerifyError::UnsupportedScheme { scheme })
    } else {
        match spki_parts(spki) {
            Some((_, _, key)) => Ok(
                signature_accepted(alg_name(scheme)->0, key, data, signature),
            ),
            None => Ok(false),
        }
    }
}

/// Checks a signature under a scheme with the key in a DER encoded subject public
/// key info.
pub fn verify(spki: &[u8], scheme: SignatureScheme, data: &[u8], signature: &[u8]) -> (r: Result<
    bool,
    VerifyError,
>)
    requires
        digestible(data@),
    ensures
        r == verification(spki@, scheme, data@, signature@),
{
    if matches!(scheme, SignatureScheme::Unknown(_)) {
        return Err(VerifyError::UnsupportedScheme { scheme });
    }
    match SpkiParts::read(spki) {
        Some(parts) => Ok(verify_with_scheme(scheme, parts.key.as_slice(), data, signature)),
        None => Ok(false),
    }
}

/// Every scheme that has a name is preferred at some place, once. The scheme of Edwards curves
/// comes first, then those of other curves, and those of RSA come last, with the newer padding
/// first.
pub proof fn law_schemes_are_preferred_in_order(scheme: SignatureScheme, i: int, j: int)
    ensures
        scheme_preference().contains(scheme) <==> alg_name(scheme) is Some,
        scheme_preference().no_duplicates(),
        0 <= i < 9 && 0 <= j < 9 ==> {
            let a = scheme_preference()[i];
            let b = scheme_preference()[j];
            &&& a is ED25519 && !(b is ED25519) ==> i < j
            &&& scheme_suits(SignatureAlgorithm::ECDSA, a) && scheme_suits(
                SignatureAlgorithm::RSA,
                b,
            ) ==> i < j
            &&& (a is RSA_PSS_SHA256 || a is RSA_PSS_SHA384 || a is RSA_PSS_SHA512) && (
            b is RSA_PKCS1_SHA256 || b is RSA_PKCS1_SHA384 || b is RSA_PKCS1_SHA512) ==> i < j
            &&& a is ECDSA_NISTP256_SHA256 && b is ECDSA_NISTP384_SHA384 ==> i < j
            &&& a is RSA_PSS_SHA256 && b is RSA_PSS_SHA384 ==> i < j
            &&& a is RSA_PSS_SHA384 && b is RSA_PSS_SHA512 ==> i < j
            &&& a is RSA_PKCS1_SHA256 && b is RSA_PKCS1_SHA384 ==> i < j
            &&& a is RSA_PKCS1_SHA384 && b is RSA_PKCS1_SHA512 ==> i < j
        },
        scheme_preference().len() == 9,
{
    let all = scheme_preference();
    assert(all[0] is ED25519);
    assert(all[1] is ECDSA_NISTP256_SHA256);
    assert(all[2] is ECDSA_NISTP384_SHA384);
    assert(all[3] is RSA_PSS_SHA256);
    assert(all[4] is RSA_PSS_SHA384);
    assert(all[5] is RSA_PSS_SHA512);
    assert(all[6] is RSA_PKCS1_SHA256);
    assert(all[7] is RSA_PKCS1_SHA384);
    assert(all[8] is RSA_PKCS1_SHA512);
    match scheme {
        SignatureScheme::ED25519 => assert(all[0] == scheme),
        SignatureScheme::ECDSA_NISTP256_SHA256 => assert(all[1] == scheme),
        SignatureScheme::ECDSA_NISTP384_SHA384 => assert(all[2] == scheme),
        SignatureScheme::RSA_PSS_SHA256 => assert(all[3] == scheme),
        SignatureScheme::RSA_PSS_SHA384 => assert(all[4] == scheme),
        SignatureScheme::RSA_PSS_SHA512 => assert(all[5] == scheme),
        SignatureScheme::RSA_PKCS1_SHA256 => assert(all[6] == scheme),
        SignatureScheme::RSA_PKCS1_SHA384 => assert(all[7] == scheme),
        SignatureScheme::RSA_PKCS1_SHA512 => assert(all[8] == scheme),
        SignatureScheme::Unknown(_) => {},
    }
}

/// A scheme suits the kind of key that its name begins with. All suit a key of another kind.
pub proof fn law_schemes_suit_the_keys_that_they_are_named_after(scheme: SignatureScheme)
    ensures
        scheme_suits(SignatureAlgorithm::Other, scheme),
        alg_name(scheme) matches Some(name) ==> {
            &&& scheme_suits(SignatureAlgorithm::ED25519, scheme) <==> name[1] == 'd'
            &&& scheme_suits(SignatureAlgorithm::ECDSA, scheme) <==> name[1] == 'c'
            &&& scheme_suits(SignatureAlgorithm::RSA, scheme) <==> name[1] == 's'
        },
        alg_name(scheme) is None ==> !scheme_suits(SignatureAlgorithm::ED25519, scheme)
            && !scheme_suits(SignatureAlgorithm::ECDSA, scheme) && !scheme_suits(
            SignatureAlgorithm::RSA,
            scheme,
        ),
{
    reveal_strlit("ed25519");
    reveal_strlit("ecdsa-p256-sha256");
    reveal_strlit("ecdsa-p384-sha384");
    reveal_strlit("rsa-pss-sha256");
    reveal_strlit("rsa-pss-sha384");
    reveal_strlit("rsa-pss-sha512");
    reveal_strlit("rsa-v1_5-sha256");
    reveal_strlit("rsa-v1_5-sha384");
    reveal_strlit("rsa-v1_5-sha512");
}

/// The scheme that a public key calls for goes by the object identifiers of its algorithm and,
/// for an elliptic curve, of the curve. Other keys call for none.
pub proof fn law_keys_call_for_their_scheme(algorithm: Seq<u8>, curve: Option<Seq<u8>>)
    ensures
        scheme_of_key(algorithm, curve) == Some(SignatureScheme::ED25519) <==> algorithm
            == seq![0x2bu8, 0x65, 0x70],
        scheme_of_key(algorithm, curve) == Some(SignatureScheme::RSA_PSS_SHA512) <==> algorithm
            == seq![0x2au8, 0x86, 0x48, 0x86, 0xf7, 0x0d, 0x01, 0x01, 0x01],
        scheme_of_key(algorithm, curve) == Some(SignatureScheme::ECDSA_NISTP256_SHA256)
            <==> algorithm == seq![0x2au8, 0x86, 0x48, 0xce, 0x3d, 0x02, 0x01] && curve == Some(
            seq![0x2au8, 0x86, 0x48, 0xce, 0x3d, 0x03, 0x01, 0x07],
        ),
        scheme_of_key(algorithm, curve) == Some(SignatureScheme::ECDSA_NISTP384_SHA384)
            <==> algorithm == seq![0x2au8, 0x86, 0x48, 0xce, 0x3d, 0x02, 0x01] && curve == Some(
            seq![0x2bu8, 0x81, 0x04, 0x00, 0x22],
        ),
        scheme_of_key(algorithm, curve) matches Some(scheme) ==> scheme is ED25519
            || scheme is RSA_PSS_SHA512 || scheme is ECDSA_NISTP256_SHA256
            || scheme is ECDSA_NISTP384_SHA384,
{
    assert(ed25519_oid().len() == 3);
    assert(rsa_oid().len() == 9);
    assert(elliptic_curve_oid().len() == 7);
    assert(p256_oid().len() == 8);
    assert(p384_oid().len() == 5);
}

/// A signature is good where the key that is given accepts it under the name of the scheme. A
/// scheme without a name is refused.
pub proof fn law_signatures_are_checked_with_the_key(
    spki: Seq<u8>,
    scheme: SignatureScheme,
    data: Seq<u8>,
    signature: Seq<u8>,
)
    ensures
        alg_name(scheme) is None ==> verification(spki, scheme, data, signature) is Err,
        alg_name(scheme) matches Some(alg) ==> match spki_parts(spki) {
            Some((_, _, key)) => verification(spki, scheme, data, signature) == Ok::<
                bool,
                VerifyError,
            >(signature_accepted(alg, key, data, signature)),
            None => verification(spki, scheme, data, signature) == Ok::<bool, VerifyError>(false),
        },
{
}

/// The scheme of a public key is the one that its algorithm and its curve call for.
pub proof fn law_public_keys_have_the_scheme_of_their_kind(spki: Seq<u8>)
    ensures
        spki_parts(spki) matches Some((algorithm, curve, _)) ==> canonical_scheme(spki)
            == scheme_of_key(algorithm, curve),
        spki_parts(spki) is None ==> canonical_scheme(spki) is None,
{
}

} // verus!
